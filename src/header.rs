//! Header names and header lists.
use crate::text::{chars_of, join, join_parts, split_chars, split_on, string_of, views};
use vstd::prelude::*;

verus! {

/// What `str::to_lowercase` makes of a string.
pub uninterp spec fn lower_of(s: Seq<char>) -> Seq<char>;

/// What `char::to_uppercase` yields first for a character.
pub uninterp spec fn upper_first_of(c: char) -> Option<char>;

/// An ASCII character in lower case: `A` to `Z` become `a` to `z`.
pub open spec fn ascii_lower_char(c: char) -> char {
    if 'A' <= c <= 'Z' {
        (((c as u32) + 32) as u8) as char
    } else {
        c
    }
}

/// An ASCII character in upper case: `a` to `z` become `A` to `Z`.
pub open spec fn ascii_upper_char(c: char) -> char {
    if 'a' <= c <= 'z' {
        (((c as u32) - 32) as u8) as char
    } else {
        c
    }
}

pub open spec fn ascii_lower(s: Seq<char>) -> Seq<char> {
    s.map_values(|c: char| ascii_lower_char(c))
}

/// Relies on `str::to_lowercase`: the result depends on the characters
/// alone, and ASCII text is lower-cased as `str::to_ascii_lowercase` does.
#[verifier::external_body]
pub(crate) fn lowercase(s: &str) -> (r: String)
    ensures
        r@ == lower_of(s@),
        vstd::utf8::is_ascii_chars(s@) ==> r@ == ascii_lower(s@),
{
    s.to_lowercase()
}

/// Relies on `char::to_uppercase`: the first character of the upper-case
/// form, which depends on `c` alone; an ASCII character maps as
/// `char::to_ascii_uppercase` maps it.
#[verifier::external_body]
fn uppercase_first(c: char) -> (r: Option<char>)
    ensures
        r == upper_first_of(c),
        '\0' <= c <= '\u{7f}' ==> r == Some(ascii_upper_char(c)),
{
    c.to_uppercase().next()
}

/// A part of a header name, lower-cased and then with its first character
/// upper-cased.
pub open spec fn capitalized(p: Seq<char>) -> Seq<char> {
    let l = lower_of(p);
    if vstd::utf8::is_ascii_chars(p) {
        if p.len() == 0 {
            p
        } else {
            seq![ascii_upper_char(p[0])] + ascii_lower(p).skip(1)
        }
    } else if l.len() == 0 {
        l
    } else {
        match upper_first_of(l[0]) {
            Some(u) => seq![u] + l.skip(1),
            None => l,
        }
    }
}

/// The canonical form of a header name: each `-`-separated part
/// capitalized, as in `Content-Length`.
pub open spec fn canonical_name(name: Seq<char>) -> Seq<char> {
    join(split_on(name, '-').map_values(|p: Seq<char>| capitalized(p)), '-')
}

fn capitalize(p: &Vec<char>) -> (r: Vec<char>)
    ensures
        r@ == capitalized(p@),
{
    let lowered = lowercase(string_of(p).as_str());
    let l = chars_of(lowered.as_str());
    proof {
        if vstd::utf8::is_ascii_chars(p@) {
            assert(l@.len() == p@.len());
            if p@.len() > 0 {
                let c = p@[0];
                assert(l@[0] == ascii_lower_char(c));
                assert('\0' <= l@[0] <= '\u{7f}');
                assert(ascii_upper_char(ascii_lower_char(c)) == ascii_upper_char(c));
            }
        }
    }
    if l.len() == 0 {
        return l;
    }
    match uppercase_first(l[0]) {
        Some(u) => {
            let mut out: Vec<char> = Vec::new();
            out.push(u);
            let mut i: usize = 1;
            while i < l.len()
                invariant
                    1 <= i <= l.len(),
                    out@ == seq![u] + l@.subrange(1, i as int),
                decreases l.len() - i,
            {
                out.push(l[i]);
                i = i + 1;
                assert(out@ =~= seq![u] + l@.subrange(1, i as int));
            }
            assert(l@.subrange(1, i as int) =~= l@.skip(1));
            out
        },
        None => l,
    }
}

/// The canonical form of a header name, as in `Content-Length`.
pub fn format_header(header: &str) -> (r: String)
    ensures
        r@ == canonical_name(header@),
{
    let parts = split_chars(&chars_of(header), '-');
    let mut caps: Vec<Vec<char>> = Vec::new();
    let mut k: usize = 0;
    while k < parts.len()
        invariant
            k <= parts.len(),
            views(caps@) == views(parts@).take(k as int).map_values(|p: Seq<char>| capitalized(p)),
        decreases parts.len() - k,
    {
        let c = capitalize(&parts[k]);
        let ghost before = views(caps@);
        let ghost cv = c@;
        caps.push(c);
        assert(views(caps@) =~= before.push(cv));
        k = k + 1;
        assert(views(caps@) =~= views(parts@).take(k as int).map_values(|p: Seq<char>| capitalized(p)));
    }
    assert(views(parts@).take(k as int) =~= views(parts@));
    string_of(&join_parts(&caps, '-'))
}

/// A header: a name and a value.
pub struct Header {
    pub name: String,
    pub value: String,
}

impl Header {
    pub fn new(header: &str, value: &str) -> (r: Header)
        ensures
            r.name@ == header@,
            r.value@ == value@,
    {
        Header { name: string_of(&chars_of(header)), value: string_of(&chars_of(value)) }
    }

    pub open spec fn pair(&self) -> (Seq<char>, Seq<char>) {
        (self.name@, self.value@)
    }
}

/// The name and value of each header, in order.
pub open spec fn pairs(hs: Seq<Header>) -> Seq<(Seq<char>, Seq<char>)> {
    hs.map_values(|h: Header| h.pair())
}

/// Whether `k` is the first position of a header named `name`.
pub open spec fn first_named(hs: Seq<(Seq<char>, Seq<char>)>, name: Seq<char>, k: int) -> bool {
    0 <= k < hs.len() && hs[k].0 == name && forall|j: int| 0 <= j < k ==> hs[j].0 != name
}

pub open spec fn has_named(hs: Seq<(Seq<char>, Seq<char>)>, name: Seq<char>) -> bool {
    exists|k: int| 0 <= k < hs.len() && hs[k].0 == name
}

/// The value of the first header named `name`, if there is one.
pub open spec fn value_of(hs: Seq<(Seq<char>, Seq<char>)>, name: Seq<char>) -> Option<Seq<char>> {
    if has_named(hs, name) {
        Some(hs[choose|k: int| first_named(hs, name, k)].1)
    } else {
        None
    }
}

/// The list with the header named `name` given `value`: the first header
/// of that name is replaced in place, or the header is added at the end.
pub open spec fn with_header(
    hs: Seq<(Seq<char>, Seq<char>)>,
    name: Seq<char>,
    value: Seq<char>,
) -> Seq<(Seq<char>, Seq<char>)> {
    if has_named(hs, name) {
        hs.update(choose|k: int| first_named(hs, name, k), (name, value))
    } else {
        hs.push((name, value))
    }
}

pub proof fn lemma_first_named_unique(hs: Seq<(Seq<char>, Seq<char>)>, name: Seq<char>, k: int)
    requires
        first_named(hs, name, k),
    ensures
        has_named(hs, name),
        forall|j: int| first_named(hs, name, j) ==> j == k,
{
    assert(forall|j: int| first_named(hs, name, j) ==> j == k) by {
        assert forall|j: int| first_named(hs, name, j) implies j == k by {
            if j < k {
                assert(hs[j].0 != name);
            }
            if k < j {
                assert(hs[k].0 != name);
            }
        }
    }
}

fn names_equal(a: &String, b: &String) -> (r: bool)
    ensures
        r == (a@ == b@),
{
    a.eq(b)
}

/// The position of the first header named `name`, if there is one.
pub fn find_header(hs: &Vec<Header>, name: &String) -> (r: Option<usize>)
    ensures
        r matches Some(k) ==> first_named(pairs(hs@), name@, k as int),
        r is None ==> !has_named(pairs(hs@), name@),
{
    let mut k: usize = 0;
    while k < hs.len()
        invariant
            k <= hs.len(),
            forall|j: int| 0 <= j < k ==> pairs(hs@)[j].0 != name@,
        decreases hs.len() - k,
    {
        if names_equal(&hs[k].name, name) {
            assert(pairs(hs@)[k as int].0 == name@);
            return Some(k);
        }
        k = k + 1;
    }
    None
}

/// Gives the header named `name` the value `value`: the first header of
/// that name is replaced, or the header is added at the end.
pub fn put_header(hs: &mut Vec<Header>, name: String, value: String)
    ensures
        pairs(final(hs)@) == with_header(pairs(old(hs)@), name@, value@),
{
    let ghost nm = name@;
    let ghost vl = value@;
    match find_header(hs, &name) {
        Some(k) => {
            proof {
                lemma_first_named_unique(pairs(hs@), nm, k as int);
            }
            let ghost before = pairs(hs@);
            hs.set(k, Header { name, value });
            assert(pairs(hs@) =~= before.update(k as int, (nm, vl)));
        },
        None => {
            let ghost before = pairs(hs@);
            hs.push(Header { name, value });
            assert(pairs(hs@) =~= before.push((nm, vl)));
        },
    }
}

/// A list that holds a header of some name holds a first one.
pub proof fn lemma_has_first(hs: Seq<(Seq<char>, Seq<char>)>, name: Seq<char>)
    requires
        has_named(hs, name),
    ensures
        exists|k: int| first_named(hs, name, k),
    decreases hs.len(),
{
    let init = hs.drop_last();
    if has_named(init, name) {
        lemma_has_first(init, name);
        let k = choose|k: int| first_named(init, name, k);
        assert forall|j: int| 0 <= j < k implies hs[j].0 != name by {
            assert(init[j] == hs[j]);
        }
        assert(init[k] == hs[k]);
        assert(first_named(hs, name, k));
    } else {
        let k = hs.len() - 1;
        let k0 = choose|k0: int| 0 <= k0 < hs.len() && hs[k0].0 == name;
        if k0 < k {
            assert(init[k0].0 == name);
        }
        assert forall|j: int| 0 <= j < k implies hs[j].0 != name by {
            assert(init[j] == hs[j]);
        }
        assert(first_named(hs, name, k));
    }
}

proof fn lemma_split_parts_ascii(s: Seq<char>, sep: char)
    requires
        vstd::utf8::is_ascii_chars(s),
    ensures
        forall|k: int| 0 <= k < split_on(s, sep).len() ==> vstd::utf8::is_ascii_chars(#[trigger] split_on(s, sep)[k]),
    decreases s.len(),
{
    if s.len() > 0 {
        let t = s.drop_last();
        assert(vstd::utf8::is_ascii_chars(t)) by {
            assert forall|i: int| 0 <= i < t.len() implies '\0' <= #[trigger] t[i] <= '\u{7f}' by {
                assert(t[i] == s[i]);
            }
        }
        lemma_split_parts_ascii(t, sep);
        crate::text::lemma_split_on_nonempty(t, sep);
        let r = split_on(t, sep);
        if s.last() != sep {
            let l = r.last().push(s.last());
            assert(vstd::utf8::is_ascii_chars(r[r.len() - 1]));
            assert(vstd::utf8::is_ascii_chars(l)) by {
                assert forall|i: int| 0 <= i < l.len() implies '\0' <= #[trigger] l[i] <= '\u{7f}' by {
                    if i < l.len() - 1 {
                        assert(l[i] == r.last()[i]);
                    } else {
                        assert(s[s.len() - 1] == s.last());
                    }
                }
            }
            let u = r.update(r.len() - 1, l);
            assert forall|k: int| 0 <= k < u.len() implies vstd::utf8::is_ascii_chars(#[trigger] u[k]) by {
                if k < u.len() - 1 {
                    assert(u[k] == r[k]);
                }
            }
        } else {
            let u = r.push(Seq::<char>::empty());
            assert forall|k: int| 0 <= k < u.len() implies vstd::utf8::is_ascii_chars(#[trigger] u[k]) by {
                if k < u.len() - 1 {
                    assert(u[k] == r[k]);
                }
            }
        }
    }
}

proof fn lemma_join_push_last(r: Seq<Seq<char>>, sep: char, c: char)
    requires
        r.len() >= 1,
    ensures
        join(r.update(r.len() - 1, r.last().push(c)), sep) == join(r, sep).push(c),
{
    let u = r.update(r.len() - 1, r.last().push(c));
    if r.len() > 1 {
        assert(u.drop_last() =~= r.drop_last());
        assert(join(u, sep) =~= join(r, sep).push(c));
    }
}

/// Splitting at a separator and joining with it gives the text back.
proof fn lemma_split_join(s: Seq<char>, sep: char)
    ensures
        join(split_on(s, sep), sep) == s,
    decreases s.len(),
{
    if s.len() > 0 {
        let t = s.drop_last();
        lemma_split_join(t, sep);
        crate::text::lemma_split_on_nonempty(t, sep);
        let r = split_on(t, sep);
        if s.last() == sep {
            let u = r.push(Seq::<char>::empty());
            assert(u.drop_last() =~= r);
            assert(join(u, sep) =~= s);
        } else {
            lemma_join_push_last(r, sep, s.last());
            assert(t.push(s.last()) =~= s);
        }
    }
}

proof fn lemma_join_same_lengths(parts: Seq<Seq<char>>, q: Seq<Seq<char>>, sep: char)
    requires
        parts.len() == q.len(),
        forall|k: int| 0 <= k < parts.len() ==> (#[trigger] q[k]).len() == parts[k].len(),
    ensures
        join(q, sep).len() == join(parts, sep).len(),
    decreases parts.len(),
{
    if parts.len() > 1 {
        lemma_join_same_lengths(parts.drop_last(), q.drop_last(), sep);
        assert(q.last().len() == parts.last().len()) by {
            assert(q[q.len() - 1].len() == parts[parts.len() - 1].len());
        }
    } else if parts.len() == 1 {
        assert(q[0].len() == parts[0].len());
    }
}

/// The canonical form of an ASCII header name is as long as the name.
pub proof fn lemma_canonical_length(name: Seq<char>)
    requires
        vstd::utf8::is_ascii_chars(name),
    ensures
        canonical_name(name).len() == name.len(),
{
    let parts = split_on(name, '-');
    let q = parts.map_values(|p: Seq<char>| capitalized(p));
    lemma_split_parts_ascii(name, '-');
    assert forall|k: int| 0 <= k < parts.len() implies (#[trigger] q[k]).len() == parts[k].len() by {
        assert(vstd::utf8::is_ascii_chars(parts[k]));
    }
    lemma_join_same_lengths(parts, q, '-');
    lemma_split_join(name, '-');
}

/// Giving one name a value leaves the value of any other name as it was.
pub proof fn lemma_value_of_other(
    hs: Seq<(Seq<char>, Seq<char>)>,
    name: Seq<char>,
    val: Seq<char>,
    other: Seq<char>,
)
    requires
        name != other,
    ensures
        value_of(with_header(hs, name, val), other) == value_of(hs, other),
{
    let r = with_header(hs, name, val);
    if has_named(hs, name) {
        lemma_has_first(hs, name);
        let k = choose|k: int| first_named(hs, name, k);
        assert(r == hs.update(k, (name, val)));
    }
    assert(forall|j: int| 0 <= j < r.len() && j < hs.len() && r[j] != hs[j] ==> r[j].0 == name);
    if has_named(hs, other) {
        lemma_has_first(hs, other);
        let j = choose|j: int| first_named(hs, other, j);
        lemma_first_named_unique(hs, other, j);
        assert(r[j] == hs[j]);
        assert(first_named(r, other, j));
        lemma_first_named_unique(r, other, j);
    } else {
        assert(!has_named(r, other)) by {
            if has_named(r, other) {
                let j = choose|j: int| 0 <= j < r.len() && r[j].0 == other;
                if j < hs.len() {
                    assert(r[j] == hs[j]);
                }
            }
        }
    }
}

/// Whether the character at `i` has the case of a canonical name: upper
/// or no case at the start of a part, lower or no case elsewhere.
pub open spec fn canonical_at(s: Seq<char>, i: int) -> bool {
    if i == 0 || s[i - 1] == '-' {
        !('a' <= s[i] <= 'z')
    } else {
        !('A' <= s[i] <= 'Z')
    }
}

/// An ASCII header name already in canonical form, as `Content-Length`.
pub open spec fn is_canonical(s: Seq<char>) -> bool {
    vstd::utf8::is_ascii_chars(s) && forall|i: int| 0 <= i < s.len() ==> #[trigger] canonical_at(s, i)
}

proof fn lemma_parts_fixed(s: Seq<char>)
    requires
        is_canonical(s),
    ensures
        forall|k: int|
            0 <= k < split_on(s, '-').len() ==> capitalized(#[trigger] split_on(s, '-')[k]) == split_on(s, '-')[k],
        (split_on(s, '-').last().len() == 0) == (s.len() == 0 || s.last() == '-'),
    decreases s.len(),
{
    lemma_split_parts_ascii(s, '-');
    crate::text::lemma_split_on_nonempty(s, '-');
    if s.len() > 0 {
        let t = s.drop_last();
        let c = s.last();
        assert(is_canonical(t)) by {
            assert forall|i: int| 0 <= i < t.len() implies #[trigger] canonical_at(t, i) by {
                assert(canonical_at(s, i));
            }
        }
        lemma_parts_fixed(t);
        lemma_split_parts_ascii(t, '-');
        crate::text::lemma_split_on_nonempty(t, '-');
        let r = split_on(t, '-');
        let n = r.len() - 1;
        if c == '-' {
            let u = r.push(Seq::<char>::empty());
            assert forall|k: int| 0 <= k < u.len() implies capitalized(#[trigger] u[k]) == u[k] by {
                if k < n + 1 {
                    assert(u[k] == r[k]);
                } else {
                    assert(u[k].len() == 0);
                }
            }
        } else {
            let p = r[n];
            let q = p.push(c);
            assert(canonical_at(s, s.len() - 1));
            assert(vstd::utf8::is_ascii_chars(p));
            assert(vstd::utf8::is_ascii_chars(q));
            if p.len() == 0 {
                assert(!('a' <= c <= 'z'));
                assert(capitalized(q) =~= q);
            } else {
                assert(capitalized(p) == p);
                assert(t.len() > 0 && t.last() != '-');
                assert(!('A' <= c <= 'Z'));
                assert(ascii_lower(q) =~= ascii_lower(p).push(c));
                assert(capitalized(q) =~= capitalized(p).push(c));
            }
            let u = r.update(n, q);
            assert forall|k: int| 0 <= k < u.len() implies capitalized(#[trigger] u[k]) == u[k] by {
                if k < n {
                    assert(u[k] == r[k]);
                }
            }
        }
    }
}

/// A name already in canonical form is its own canonical form.
pub proof fn lemma_canonical_fixed(s: Seq<char>)
    requires
        is_canonical(s),
    ensures
        canonical_name(s) == s,
{
    lemma_parts_fixed(s);
    let parts = split_on(s, '-');
    let q = parts.map_values(|p: Seq<char>| capitalized(p));
    assert(q =~= parts);
    lemma_split_join(s, '-');
}

} // verus!
