//! Small operations on strings, each stated over the string's characters.

use vstd::prelude::*;
use vstd::string::StringExecFns;

verus! {

/// `String::push` appends one character to the end of the string.
pub assume_specification[ std::string::String::push ](s: &mut std::string::String, ch: char)
    ensures
        final(s)@ == old(s)@.push(ch),
;

/// `items` written one after the other with `separator` between neighbours.
pub open spec fn joined(items: Seq<Seq<char>>, separator: Seq<char>) -> Seq<char>
    decreases items.len(),
{
    if items.len() == 0 {
        Seq::empty()
    } else if items.len() == 1 {
        items[0]
    } else {
        joined(items.drop_last(), separator) + separator + items.last()
    }
}

/// The characters of `s`, in order.
pub fn chars_of(s: &str) -> (out: Vec<char>)
    ensures
        out@ == s@,
{
    broadcast use vstd::string::group_string_axioms;

    let mut out: Vec<char> = Vec::new();
    for c in it: s.chars()
        invariant
            it.seq() == s@,
            out@ == s@.take(it.index()),
    {
        out.push(c);
    }
    assert(s@.take(s@.len() as int) == s@);
    out
}

/// The string made of the characters `cs[from..to]`.
pub fn string_of(cs: &Vec<char>, from: usize, to: usize) -> (out: String)
    requires
        from <= to <= cs.len(),
    ensures
        out@ == cs@.subrange(from as int, to as int),
{
    let mut out = String::new();
    let mut i: usize = from;
    while i < to
        invariant
            from <= i <= to <= cs.len(),
            out@ == cs@.subrange(from as int, i as int),
        decreases to - i,
    {
        out.push(cs[i]);
        i += 1;
    }
    out
}

/// `a` followed by `b`.
pub fn concatenate(a: &str, b: &str) -> (out: String)
    ensures
        out@ == a@ + b@,
{
    let mut out = String::from_str(a);
    out.append(b);
    out
}

/// Whether the two strings hold the same characters.
pub fn same_text(a: &str, b: &str) -> (same: bool)
    ensures
        same == (a@ == b@),
{
    let x = chars_of(a);
    let y = chars_of(b);
    if x.len() != y.len() {
        return false;
    }
    let mut i: usize = 0;
    while i < x.len()
        invariant
            x.len() == y.len(),
            i <= x.len(),
            x@ == a@,
            y@ == b@,
            x@.take(i as int) == y@.take(i as int),
        decreases x.len() - i,
    {
        if x[i] != y[i] {
            return false;
        }
        assert(x@.take(i + 1) =~= x@.take(i as int).push(x@[i as int]));
        assert(y@.take(i + 1) =~= y@.take(i as int).push(y@[i as int]));
        i += 1;
    }
    assert(x@.take(x.len() as int) == x@);
    assert(y@.take(y.len() as int) == y@);
    true
}

/// What follows `prefix` in `s`, where `s` begins with `prefix`.
pub fn strip_prefix(s: &str, prefix: &str) -> (rest: Option<String>)
    ensures
        match rest {
            Some(r) => prefix@.is_prefix_of(s@) && r@ == s@.skip(prefix@.len() as int),
            None => !prefix@.is_prefix_of(s@),
        },
{
    let cs = chars_of(s);
    let ps = chars_of(prefix);
    if ps.len() > cs.len() {
        return None;
    }
    let mut i: usize = 0;
    while i < ps.len()
        invariant
            ps.len() <= cs.len(),
            i <= ps.len(),
            cs@ == s@,
            ps@ == prefix@,
            cs@.take(i as int) == ps@.take(i as int),
        decreases ps.len() - i,
    {
        if cs[i] != ps[i] {
            assert(cs@.subrange(0, ps.len() as int)[i as int] != ps@[i as int]);
            return None;
        }
        assert(cs@.take(i + 1) =~= cs@.take(i as int).push(cs@[i as int]));
        assert(ps@.take(i + 1) =~= ps@.take(i as int).push(ps@[i as int]));
        i += 1;
    }
    assert(ps@.take(ps.len() as int) == ps@);
    Some(string_of(&cs, ps.len(), cs.len()))
}

/// The strings of `items` written one after the other, `separator` between
/// neighbours.
pub fn join(items: &Vec<String>, separator: &str) -> (out: String)
    ensures
        out@ == joined(items.deep_view(), separator@),
{
    let mut out = String::new();
    let mut i: usize = 0;
    while i < items.len()
        invariant
            i <= items.len(),
            out@ == joined(items.deep_view().take(i as int), separator@),
        decreases items.len() - i,
    {
        proof {
            let now = items.deep_view().take(i + 1);
            assert(now.drop_last() =~= items.deep_view().take(i as int));
            assert(now.last() == items[i as int]@);
        }
        if i > 0 {
            out.append(separator);
        }
        out.append(items[i].as_str());
        i += 1;
    }
    assert(items.deep_view().take(items.len() as int) == items.deep_view());
    out
}

/// Appends a copy of `line` to `lines`.
pub fn push_line(lines: &mut Vec<String>, line: &str)
    ensures
        final(lines).deep_view() == old(lines).deep_view().push(line@),
{
    lines.push(String::from_str(line));
    assert(lines.deep_view() =~= old(lines).deep_view().push(line@));
}

/// Appends `line` to `lines`.
pub fn push_text(lines: &mut Vec<String>, line: String)
    ensures
        final(lines).deep_view() == old(lines).deep_view().push(line@),
{
    lines.push(line);
    assert(lines.deep_view() =~= old(lines).deep_view().push(line@));
}

/// A character that counts as white space: one with the Unicode property
/// `White_Space`.
pub open spec fn is_space(c: char) -> bool {
    let v = c as u32;
    ||| 0x09 <= v <= 0x0d
    ||| v == 0x20
    ||| v == 0x85
    ||| v == 0xa0
    ||| v == 0x1680
    ||| 0x2000 <= v <= 0x200a
    ||| v == 0x2028
    ||| v == 0x2029
    ||| v == 0x202f
    ||| v == 0x205f
    ||| v == 0x3000
}

/// `s` without the white space at its beginning.
pub open spec fn trimmed_start(s: Seq<char>) -> Seq<char>
    decreases s.len(),
{
    if s.len() > 0 && is_space(s[0]) {
        trimmed_start(s.skip(1))
    } else {
        s
    }
}

/// `s` without the white space at its end.
pub open spec fn trimmed_end(s: Seq<char>) -> Seq<char>
    decreases s.len(),
{
    if s.len() > 0 && is_space(s.last()) {
        trimmed_end(s.drop_last())
    } else {
        s
    }
}

/// `s` without the white space at its beginning and at its end.
pub open spec fn trimmed(s: Seq<char>) -> Seq<char> {
    trimmed_end(trimmed_start(s))
}

/// The pieces of `s` between its commas, in order: one piece more than `s`
/// has commas.
pub open spec fn pieces(s: Seq<char>) -> Seq<Seq<char>>
    decreases s.len(),
{
    if s.len() == 0 {
        seq![Seq::empty()]
    } else {
        let front = pieces(s.drop_last());
        if s.last() == ',' {
            front.push(Seq::empty())
        } else {
            front.drop_last().push(front.last().push(s.last()))
        }
    }
}

/// The items of a list written with commas: the pieces between the commas,
/// each without the white space around it.
pub open spec fn list_items(s: Seq<char>) -> Seq<Seq<char>> {
    pieces(s).map_values(|piece: Seq<char>| trimmed(piece))
}

/// Whether `c` counts as white space.
pub fn is_space_char(c: char) -> (r: bool)
    ensures
        r == is_space(c),
{
    let v: u32 = c as u32;
    (0x09 <= v && v <= 0x0d) || v == 0x20 || v == 0x85 || v == 0xa0 || v == 0x1680 || (0x2000 <= v && v
        <= 0x200a) || v == 0x2028 || v == 0x2029 || v == 0x202f || v == 0x205f || v == 0x3000
}

/// The string made of `cs[from..to]` without the white space around it.
fn trimmed_string(cs: &Vec<char>, from: usize, to: usize) -> (out: String)
    requires
        from <= to <= cs.len(),
    ensures
        out@ == trimmed(cs@.subrange(from as int, to as int)),
{
    let ghost piece = cs@.subrange(from as int, to as int);
    let mut a: usize = from;
    while a < to && is_space_char(cs[a])
        invariant
            from <= a <= to <= cs.len(),
            trimmed_start(piece) == trimmed_start(cs@.subrange(a as int, to as int)),
        decreases to - a,
    {
        proof {
            let here = cs@.subrange(a as int, to as int);
            assert(here[0] == cs[a as int]);
            assert(here.skip(1) =~= cs@.subrange(a + 1, to as int));
        }
        a += 1;
    }
    let ghost started = cs@.subrange(a as int, to as int);
    proof {
        if a < to {
            assert(started[0] == cs[a as int]);
        }
        assert(trimmed_start(piece) == started);
    }
    let mut b: usize = to;
    while b > a && is_space_char(cs[b - 1])
        invariant
            a <= b <= to <= cs.len(),
            trimmed_end(started) == trimmed_end(cs@.subrange(a as int, b as int)),
        decreases b - a,
    {
        proof {
            let here = cs@.subrange(a as int, b as int);
            assert(here.last() == cs[b - 1]);
            assert(here.drop_last() =~= cs@.subrange(a as int, b - 1));
        }
        b -= 1;
    }
    proof {
        let here = cs@.subrange(a as int, b as int);
        if b > a {
            assert(here.last() == cs[b - 1]);
        }
        assert(trimmed_end(started) == here);
    }
    string_of(cs, a, b)
}

/// The items of a list written with commas, each without the white space
/// around it. A text without a comma is one item; an empty text is one empty
/// item.
pub fn split_list(text: &str) -> (items: Vec<String>)
    ensures
        items.deep_view() == list_items(text@),
{
    let cs = chars_of(text);
    let n = cs.len();
    let mut items: Vec<String> = Vec::new();
    let mut from: usize = 0;
    let mut i: usize = 0;
    proof {
        assert(cs@.take(0) =~= Seq::<char>::empty());
        assert(pieces(cs@.take(0)).drop_last() =~= Seq::<Seq<char>>::empty());
        assert(cs@.subrange(0, 0) =~= Seq::<char>::empty());
        assert(items.deep_view() =~= list_items(cs@.take(0)).drop_last());
    }
    while i < n
        invariant
            from <= i <= n,
            n == cs.len(),
            pieces(cs@.take(i as int)).len() > 0,
            pieces(cs@.take(i as int)).last() == cs@.subrange(from as int, i as int),
            items.deep_view() == list_items(cs@.take(i as int)).drop_last(),
        decreases n - i,
    {
        let ghost before = pieces(cs@.take(i as int));
        let ghost now = pieces(cs@.take(i + 1));
        proof {
            assert(cs@.take(i + 1).drop_last() =~= cs@.take(i as int));
            assert(cs@.take(i + 1).last() == cs[i as int]);
        }
        if cs[i] == ',' {
            let item = trimmed_string(&cs, from, i);
            let ghost shown = items.deep_view();
            items.push(item);
            proof {
                assert(now == before.push(Seq::empty()));
                assert(items.deep_view() =~= shown.push(item@));
                assert(list_items(cs@.take(i + 1)).drop_last() =~= list_items(cs@.take(i as int)));
                assert(list_items(cs@.take(i as int)) =~= list_items(cs@.take(i as int)).drop_last().push(
                    trimmed(before.last()),
                ));
                assert(cs@.subrange(i + 1, i + 1) =~= Seq::<char>::empty());
            }
            from = i + 1;
        } else {
            proof {
                assert(now == before.drop_last().push(before.last().push(cs[i as int])));
                assert(cs@.subrange(from as int, i + 1) =~= cs@.subrange(from as int, i as int).push(cs[i as int]));
                assert(list_items(cs@.take(i + 1)).drop_last() =~= list_items(cs@.take(i as int)).drop_last());
            }
        }
        i += 1;
    }
    let item = trimmed_string(&cs, from, n);
    let ghost shown = items.deep_view();
    items.push(item);
    proof {
        assert(cs@.take(n as int) =~= cs@);
        let all = list_items(cs@);
        assert(items.deep_view() =~= shown.push(item@));
        assert(all =~= all.drop_last().push(trimmed(pieces(cs@).last())));
    }
    items
}

} // verus!
