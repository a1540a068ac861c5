//! Plain text handling: white space, splitting at a separator, and the
//! lowercase form of a text.

use vstd::prelude::*;

verus! {

/// The characters with the Unicode property `White_Space`.
pub open spec fn is_white_space(c: char) -> bool {
    ('\u{9}' <= c && c <= '\u{d}') || c == ' ' || c == '\u{85}' || c == '\u{a0}' || c == '\u{1680}'
        || ('\u{2000}' <= c && c <= '\u{200a}') || c == '\u{2028}' || c == '\u{2029}' || c
        == '\u{202f}' || c == '\u{205f}' || c == '\u{3000}'
}

/// The text without its leading and trailing white space.
pub open spec fn trim_spec(s: Seq<char>) -> Seq<char>
    decreases s.len(),
{
    if s.len() == 0 {
        s
    } else if is_white_space(s[0]) {
        trim_spec(s.drop_first())
    } else if is_white_space(s.last()) {
        trim_spec(s.drop_last())
    } else {
        s
    }
}

/// The parts of `s` between the commas, in order; a text without commas is
/// one part.
pub open spec fn split_commas(s: Seq<char>) -> Seq<Seq<char>>
    decreases s.len(),
{
    if s.len() == 0 {
        seq![Seq::<char>::empty()]
    } else {
        let prev = split_commas(s.drop_last());
        if s.last() == ',' {
            prev.push(Seq::<char>::empty())
        } else {
            prev.update(prev.len() - 1, prev.last().push(s.last()))
        }
    }
}

/// The lowercase form of a text, as `str::to_lowercase` gives it.
pub uninterp spec fn lowercased(s: Seq<char>) -> Seq<char>;

/// Whether `c` is white space, as `is_white_space` says.
pub fn white_space(c: char) -> (r: bool)
    ensures
        r == is_white_space(c),
{
    ('\u{9}' <= c && c <= '\u{d}') || c == ' ' || c == '\u{85}' || c == '\u{a0}' || c == '\u{1680}'
        || ('\u{2000}' <= c && c <= '\u{200a}') || c == '\u{2028}' || c == '\u{2029}' || c
        == '\u{202f}' || c == '\u{205f}' || c == '\u{3000}'
}

/// The text without its leading and trailing white space.
pub fn trim_white(s: &str) -> (r: &str)
    ensures
        r@ == trim_spec(s@),
{
    let len = s.unicode_len();
    let mut a: usize = 0;
    let mut b: usize = len;
    assert(s@.subrange(0, len as int) =~= s@);
    while a < b && white_space(s.get_char(a))
        invariant
            a <= b <= len,
            len == s@.len(),
            trim_spec(s@.subrange(a as int, b as int)) == trim_spec(s@),
        decreases b - a,
    {
        proof {
            assert(s@.subrange(a as int, b as int).drop_first() =~= s@.subrange(a + 1, b as int));
        }
        a = a + 1;
    }
    while a < b && white_space(s.get_char(b - 1))
        invariant
            a <= b <= len,
            len == s@.len(),
            trim_spec(s@.subrange(a as int, b as int)) == trim_spec(s@),
            a < b ==> !is_white_space(s@[a as int]),
        decreases b - a,
    {
        proof {
            assert(s@.subrange(a as int, b as int).drop_last() =~= s@.subrange(a as int, b - 1));
        }
        b = b - 1;
    }
    s.substring_char(a, b)
}

proof fn lemma_split_nonempty(s: Seq<char>)
    ensures
        split_commas(s).len() >= 1,
    decreases s.len(),
{
    if s.len() > 0 {
        lemma_split_nonempty(s.drop_last());
    }
}

/// The lowercase form of a text.
///
/// Calls `str::to_lowercase` and is trusted to return `lowercased` of the
/// text; the Unicode case tables that decide the result are not restated.
#[verifier::external_body]
pub fn lowercase_text(s: &str) -> (r: String)
    ensures
        r@ == lowercased(s@),
{
    s.to_lowercase()
}

/// The parts of `s` between the commas, each without its leading and
/// trailing white space and in lowercase, where that leaves any text.
pub open spec fn list_items(parts: Seq<Seq<char>>) -> Seq<Seq<char>>
    decreases parts.len(),
{
    if parts.len() == 0 {
        Seq::empty()
    } else {
        let prev = list_items(parts.drop_last());
        let item = lowercased(trim_spec(parts.last()));
        if item.len() == 0 {
            prev
        } else {
            prev.push(item)
        }
    }
}

/// The items of a comma-separated list: each part trimmed of white space
/// and lowercased, empty ones left out.
pub fn comma_items(s: &str) -> (r: Vec<String>)
    ensures
        r@.map_values(|x: String| x@) == list_items(split_commas(s@)),
{
    let len = s.unicode_len();
    let mut out: Vec<String> = Vec::new();
    let mut start: usize = 0;
    let ghost mut done: Seq<Seq<char>> = Seq::empty();
    let mut i: usize = 0;
    assert(s@.subrange(0, 0) =~= Seq::<char>::empty());
    assert(done.push(s@.subrange(0, 0)) =~= seq![Seq::<char>::empty()]);
    while i < len
        invariant
            start <= i <= len,
            len == s@.len(),
            split_commas(s@.subrange(0, i as int)) == done.push(s@.subrange(start as int, i as int)),
            out@.map_values(|x: String| x@) == list_items(done),
        decreases len - i,
    {
        let c = s.get_char(i);
        proof {
            assert(s@.subrange(0, i + 1).drop_last() =~= s@.subrange(0, i as int));
            assert(s@.subrange(0, i + 1).last() == c);
        }
        if c == ',' {
            let part = s.substring_char(start, i);
            push_item(&mut out, part);
            proof {
                assert(done.push(part@).drop_last() =~= done);
                done = done.push(part@);
                assert(s@.subrange(i + 1, i + 1) =~= Seq::<char>::empty());
            }
            start = i + 1;
        } else {
            proof {
                let prev = done.push(s@.subrange(start as int, i as int));
                assert(s@.subrange(start as int, i + 1) =~= s@.subrange(start as int, i as int).push(c));
                assert(prev.update(prev.len() - 1, prev.last().push(c)) =~= done.push(
                    s@.subrange(start as int, i + 1),
                ));
            }
        }
        i = i + 1;
    }
    let part = s.substring_char(start, len);
    push_item(&mut out, part);
    proof {
        assert(s@.subrange(0, len as int) =~= s@);
        let all = done.push(part@);
        assert(all.drop_last() =~= done);
    }
    out
}

/// Appends the trimmed, lowercased `part` to `out` unless that is empty.
fn push_item(out: &mut Vec<String>, part: &str)
    ensures
        final(out)@.map_values(|x: String| x@) == ({
            let item = lowercased(trim_spec(part@));
            if item.len() == 0 {
                old(out)@.map_values(|x: String| x@)
            } else {
                old(out)@.map_values(|x: String| x@).push(item)
            }
        }),
{
    let t = trim_white(part);
    let item = lowercase_text(t);
    if item.as_str().unicode_len() > 0 {
        let ghost before = out@;
        out.push(item);
        proof {
            assert(out@.map_values(|x: String| x@) =~= before.map_values(|x: String| x@).push(
                item@,
            ));
        }
    }
}

} // verus!
