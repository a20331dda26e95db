//! Certificate and key text handed to the TLS layer.
use crate::range::{trim, trim_of};
use crate::text::{chars_of, join, join_parts, split_chars, split_on, string_of, views};
use vstd::prelude::*;

verus! {

/// The lines of PEM text, each trimmed, blank ones left out.
pub open spec fn pem_lines(s: Seq<char>) -> Seq<Seq<char>> {
    split_on(s, '\n').map_values(|l: Seq<char>| trim_of(l)).filter(|l: Seq<char>| l.len() > 0)
}

/// PEM text with each line trimmed and blank lines left out, so that an
/// indented certificate still parses.
pub fn clean_pem(s: &str) -> (r: String)
    ensures
        r@ == join(pem_lines(s@), '\n'),
{
    let parts = split_chars(&chars_of(s), '\n');
    let ghost pv = views(parts@);
    let mut kept: Vec<Vec<char>> = Vec::new();
    let mut k: usize = 0;
    while k < parts.len()
        invariant
            k <= parts.len(),
            pv == views(parts@),
            views(kept@) == pv.take(k as int).map_values(|l: Seq<char>| trim_of(l)).filter(
                |l: Seq<char>| l.len() > 0,
            ),
        decreases parts.len() - k,
    {
        let ghost before = views(kept@);
        let t = trim(&parts[k]);
        let ghost tv = t@;
        let ghost m = pv.take(k + 1).map_values(|l: Seq<char>| trim_of(l));
        assert(m.drop_last() =~= pv.take(k as int).map_values(|l: Seq<char>| trim_of(l)));
        assert(m.last() == tv);
        proof {
            reveal(Seq::filter);
        }
        if t.len() > 0 {
            kept.push(t);
            assert(views(kept@) =~= before.push(tv));
        }
        k = k + 1;
    }
    assert(pv.take(k as int) =~= pv);
    string_of(&join_parts(&kept, '\n'))
}

} // verus!
