//! Configuration values: the list of excluded clients.

use vstd::prelude::*;
use vstd::string::*;
use crate::index::texts;

verus! {

/// A white-space character: one with the Unicode property White_Space.
pub open spec fn blank(c: char) -> bool {
    let v = c as u32;
    ||| 0x09 <= v <= 0x0D
    ||| v == 0x20
    ||| v == 0x85
    ||| v == 0xA0
    ||| v == 0x1680
    ||| 0x2000 <= v <= 0x200A
    ||| v == 0x2028
    ||| v == 0x2029
    ||| v == 0x202F
    ||| v == 0x205F
    ||| v == 0x3000
}

/// Place of the first comma of `s` at or after `from`; the length of `s`
/// where there is none.
pub open spec fn field_end(s: Seq<char>, from: int) -> int
    decreases s.len() - from,
{
    if from >= s.len() {
        s.len() as int
    } else if s[from] == ',' {
        from
    } else {
        field_end(s, from + 1)
    }
}

/// Place of the first character at or after `from` and before `to` that is
/// not white space; `to` where all are.
pub open spec fn skip_blanks(s: Seq<char>, from: int, to: int) -> int
    decreases to - from,
{
    if from >= to {
        to
    } else if blank(s[from]) {
        skip_blanks(s, from + 1, to)
    } else {
        from
    }
}

/// Place just after the last character before `to` and at or after `from`
/// that is not white space; `from` where all are.
pub open spec fn drop_blanks(s: Seq<char>, from: int, to: int) -> int
    decreases to - from,
{
    if to <= from {
        from
    } else if blank(s[to - 1]) {
        drop_blanks(s, from, to - 1)
    } else {
        to
    }
}

/// The items of the list from place `from` on: the text between commas,
/// each without the white space around it. An item may be empty; a list of
/// `n` commas has `n + 1` items.
pub open spec fn listed_from(s: Seq<char>, from: int) -> Seq<Seq<char>>
    decreases s.len() - from,
{
    if from < 0 || from > s.len() {
        Seq::empty()
    } else {
        let end = field_end(s, from);
        let first = skip_blanks(s, from, end);
        let last = drop_blanks(s, first, end);
        let rest = if from <= end < s.len() {
            listed_from(s, end + 1)
        } else {
            Seq::empty()
        };
        seq![s.subrange(first, last)] + rest
    }
}

/// The identifiers that a comma-separated list names.
pub open spec fn listed(s: Seq<char>) -> Seq<Seq<char>> {
    listed_from(s, 0)
}

/// Reads the comma-separated list of excluded clients: the items between
/// the commas, each without the white space around it. The empty text names
/// one client, the one with the empty identifier.
pub fn excluded_clients(list: &str) -> (ids: Vec<String>)
    ensures
        texts(ids@) == listed(list@),
{
    let n: usize = list.unicode_len();
    let mut ids: Vec<String> = Vec::new();
    let mut from: usize = 0;
    let ghost s = list@;
    loop
        invariant
            s == list@,
            n == s.len(),
            0 <= from <= n,
            texts(ids@) + listed_from(s, from as int) == listed(s),
        decreases n - from,
    {
        let mut end: usize = from;
        while end < n && list.get_char(end) != ','
            invariant
                s == list@,
                n == s.len(),
                from <= end <= n,
                field_end(s, end as int) == field_end(s, from as int),
            decreases n - end,
        {
            end += 1;
        }
        let mut first: usize = from;
        while first < end && is_blank(list.get_char(first))
            invariant
                s == list@,
                n == s.len(),
                from <= first <= end <= n,
                skip_blanks(s, first as int, end as int) == skip_blanks(s, from as int, end as int),
            decreases end - first,
        {
            first += 1;
        }
        let mut last: usize = end;
        while last > first && is_blank(list.get_char(last - 1))
            invariant
                s == list@,
                n == s.len(),
                first <= last <= end <= n,
                drop_blanks(s, first as int, last as int) == drop_blanks(
                    s,
                    first as int,
                    end as int,
                ),
            decreases last - first,
        {
            last -= 1;
        }
        let ghost before = texts(ids@);
        proof {
            assert(field_end(s, from as int) == end);
            assert(skip_blanks(s, from as int, end as int) == first);
            assert(drop_blanks(s, first as int, end as int) == last);
        }
        let id = String::from_str(list.substring_char(first, last));
        ids.push(id);
        assert(texts(ids@) =~= before + seq![s.subrange(first as int, last as int)]);
        if end >= n {
            proof {
                let rest = Seq::<Seq<char>>::empty();
                assert(listed_from(s, from as int) =~= seq![s.subrange(first as int, last as int)]
                    + rest);
                assert(texts(ids@) =~= before + listed_from(s, from as int));
            }
            return ids;
        }
        proof {
            let rest = listed_from(s, end + 1);
            assert(listed_from(s, from as int) =~= seq![s.subrange(first as int, last as int)]
                + rest);
            assert(texts(ids@) + rest =~= before + listed_from(s, from as int));
        }
        from = end + 1;
    }
}

/// Tells whether a character is white space.
pub fn is_blank(c: char) -> (b: bool)
    ensures
        b == blank(c),
{
    let v: u32 = c as u32;
    (0x09 <= v && v <= 0x0D) || v == 0x20 || v == 0x85 || v == 0xA0 || v == 0x1680 || (0x2000 <= v
        && v <= 0x200A) || v == 0x2028 || v == 0x2029 || v == 0x202F || v == 0x205F || v == 0x3000
}

} // verus!
