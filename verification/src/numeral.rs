use vstd::prelude::*;

verus! {

/// The decimal digits of `n`, as ASCII bytes, most significant first, with no
/// leading zeros (zero itself is the single digit `0`).
pub open spec fn dec_digits(n: nat) -> Seq<u8>
    decreases n,
{
    if n < 10 {
        seq![(48 + n) as u8]
    } else {
        dec_digits(n / 10).push((48 + n % 10) as u8)
    }
}

/// Renders `n` in decimal, matching `dec_digits`.
pub fn u64_to_decimal(n: u64) -> (r: Vec<u8>)
    ensures
        r@ == dec_digits(n as nat),
{
    let mut tmp: Vec<u8> = Vec::new();
    let mut cur: u64 = n;
    while cur >= 10
        invariant
            dec_digits(n as nat) == dec_digits(cur as nat) + Seq::new(
                tmp@.len(),
                |i: int| tmp@[tmp@.len() - 1 - i],
            ),
        decreases cur,
    {
        let d: u8 = 48 + (cur % 10) as u8;
        tmp.push(d);
        proof {
            let rev_new = Seq::new(tmp@.len(), |i: int| tmp@[tmp@.len() - 1 - i]);
            let rev_old = Seq::new(
                (tmp@.len() - 1) as nat,
                |i: int| tmp@.drop_last()[tmp@.len() - 2 - i],
            );
            assert(rev_new =~= seq![d] + rev_old);
            assert(dec_digits(cur as nat) == dec_digits((cur / 10) as nat).push(d));
            assert(dec_digits((cur / 10) as nat) + rev_new =~= dec_digits(cur as nat) + rev_old);
        }
        cur = cur / 10;
    }
    let mut r: Vec<u8> = Vec::new();
    r.push(48 + cur as u8);
    proof {
        assert(dec_digits(cur as nat) =~= seq![(48 + cur) as u8]);
        assert(r@ =~= dec_digits(n as nat).take(1));
    }
    let total = tmp.len();
    let mut j: usize = 0;
    while j < total
        invariant
            total == tmp@.len(),
            j <= total,
            dec_digits(n as nat) == dec_digits(cur as nat) + Seq::new(
                tmp@.len(),
                |i: int| tmp@[tmp@.len() - 1 - i],
            ),
            dec_digits(cur as nat).len() == 1,
            r@ == dec_digits(n as nat).take(1 + j),
        decreases total - j,
    {
        r.push(tmp[total - 1 - j]);
        proof {
            let whole = dec_digits(n as nat);
            assert(whole[1 + j] == tmp@[tmp@.len() - 1 - j]);
            assert(r@ =~= whole.take(2 + j));
        }
        j = j + 1;
    }
    proof {
        assert(dec_digits(n as nat).take(1 + total) =~= dec_digits(n as nat));
    }
    r
}

} // verus!
