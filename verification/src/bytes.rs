//! Numbers as bytes.

use vstd::prelude::*;

verus! {

/// A number in so many bytes, the lowest first.
pub open spec fn little(n: nat, width: nat) -> Seq<u8>
    decreases width,
{
    if width == 0 {
        Seq::empty()
    } else {
        seq![(n % 256) as u8] + little(n / 256, (width - 1) as nat)
    }
}

pub(crate) proof fn little_len(n: nat, width: nat)
    ensures
        little(n, width).len() == width,
    decreases width,
{
    if width > 0 {
        little_len(n / 256, (width - 1) as nat);
    }
}

/// Appends a number in so many bytes, the lowest first.
pub fn push_little(out: &mut Vec<u8>, n: u64, width: usize)
    ensures
        final(out)@ == old(out)@ + little(n as nat, width as nat),
{
    let mut rest: u64 = n;
    let mut k: usize = 0;
    assert(out@ + little(n as nat, width as nat) =~= old(out)@ + little(n as nat, width as nat));
    while k < width
        invariant
            k <= width,
            out@ + little(rest as nat, (width - k) as nat) == old(out)@ + little(
                n as nat,
                width as nat,
            ),
        decreases width - k,
    {
        let ghost before = out@;
        let ghost had = rest;
        out.push((rest % 256) as u8);
        rest = rest / 256;
        k += 1;
        assert(out@ + little(rest as nat, (width - k) as nat) =~= before + little(
            had as nat,
            (width - k + 1) as nat,
        ));
    }
    assert(out@ =~= old(out)@ + little(n as nat, width as nat));
}

} // verus!
