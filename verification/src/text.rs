//! Text as sequences of characters: reading a `str` into a vector, decimal
//! rendering of counters, and cutting a record into its fields.

use vstd::prelude::*;

verus! {

/// `String::push` appends exactly one character at the end of the string
/// and leaves the rest of it as it was. Trusted: this is the documented
/// behaviour of the standard library, not something proved here.
pub assume_specification[ String::push ](s: &mut String, c: char)
    ensures
        final(s)@ == old(s)@.push(c),
;

/// The view of every string in `v`, in order.
pub open spec fn views(v: Seq<String>) -> Seq<Seq<char>> {
    Seq::new(v.len(), |i: int| v[i]@)
}

/// The characters of `s`, in order.
pub fn chars_of(s: &str) -> (out: Vec<char>)
    ensures
        out@ == s@,
{
    let mut out: Vec<char> = Vec::new();
    let it = s.chars();
    for c in iter: it
        invariant
            out@ == iter.seq().take(iter.index() as int),
    {
        out.push(c);
    }
    out
}

/// The string made of the characters `v[from..to]`.
pub fn string_of(v: &Vec<char>, from: usize, to: usize) -> (out: String)
    requires
        from <= to <= v.len(),
    ensures
        out@ == v@.subrange(from as int, to as int),
{
    let mut out = String::new();
    let mut i: usize = from;
    while i < to
        invariant
            from <= i <= to <= v.len(),
            out@ == v@.subrange(from as int, i as int),
        decreases to - i,
    {
        out.push(v[i]);
        assert(v@.subrange(from as int, i + 1) == v@.subrange(from as int, i as int).push(
            v@[i as int],
        ));
        i += 1;
    }
    out
}

/// The character that writes the digit `d`, for `d < 10`.
pub open spec fn digit(d: nat) -> char {
    if d == 0 {
        '0'
    } else if d == 1 {
        '1'
    } else if d == 2 {
        '2'
    } else if d == 3 {
        '3'
    } else if d == 4 {
        '4'
    } else if d == 5 {
        '5'
    } else if d == 6 {
        '6'
    } else if d == 7 {
        '7'
    } else if d == 8 {
        '8'
    } else {
        '9'
    }
}

/// `n` in base ten: no sign, no leading zero, `"0"` for zero.
pub open spec fn decimal(n: nat) -> Seq<char>
    decreases n,
{
    if n < 10 {
        seq![digit(n)]
    } else {
        decimal(n / 10).push(digit(n % 10))
    }
}

fn digit_char(d: u64) -> (c: char)
    requires
        d < 10,
    ensures
        c == digit(d as nat),
{
    if d == 0 {
        '0'
    } else if d == 1 {
        '1'
    } else if d == 2 {
        '2'
    } else if d == 3 {
        '3'
    } else if d == 4 {
        '4'
    } else if d == 5 {
        '5'
    } else if d == 6 {
        '6'
    } else if d == 7 {
        '7'
    } else if d == 8 {
        '8'
    } else {
        '9'
    }
}

/// Appends `n` in base ten to `out`.
pub fn push_decimal(out: &mut String, n: u64)
    ensures
        final(out)@ == old(out)@ + decimal(n as nat),
{
    // The digits of `n` below the leading one, lowest first.
    let mut low: Vec<char> = Vec::new();
    let mut rest: u64 = n;
    while rest >= 10
        invariant
            decimal(n as nat) == decimal(rest as nat) + low@.reverse(),
        decreases rest,
    {
        let d = digit_char(rest % 10);
        proof {
            let grown = low@.push(d);
            assert(grown.reverse() =~= seq![d] + low@.reverse());
            assert(decimal(rest as nat) == decimal((rest / 10) as nat).push(d));
            assert(decimal((rest / 10) as nat).push(d) + low@.reverse() =~= decimal(
                (rest / 10) as nat,
            ) + grown.reverse());
        }
        low.push(d);
        rest = rest / 10;
    }
    out.push(digit_char(rest));
    let mut i: usize = low.len();
    while i > 0
        invariant
            i <= low.len(),
            out@ == old(out)@ + decimal(rest as nat) + low@.reverse().take(low.len() - i),
        decreases i,
    {
        i -= 1;
        out.push(low[i]);
        assert(low@.reverse().take(low.len() - i) =~= low@.reverse().take(low.len() - i - 1).push(
            low@[i as int],
        ));
    }
    assert(low@.reverse().take(low.len() as int) == low@.reverse());
    assert(old(out)@ + decimal(rest as nat) + low@.reverse() =~= old(out)@ + (decimal(rest as nat)
        + low@.reverse()));
}

/// `n` in base ten, as a string.
pub fn decimal_string(n: u64) -> (out: String)
    ensures
        out@ == decimal(n as nat),
{
    let mut out = String::new();
    push_decimal(&mut out, n);
    assert(Seq::<char>::empty() + decimal(n as nat) =~= decimal(n as nat));
    out
}

/// Appends the characters of `s` to `out`.
pub fn push_text(out: &mut String, s: &str)
    ensures
        final(out)@ == old(out)@ + s@,
{
    let it = s.chars();
    for c in iter: it
        invariant
            out@ == old(out)@ + iter.seq().take(iter.index() as int),
    {
        assert(iter.seq().take(iter.index() + 1) =~= iter.seq().take(iter.index() as int).push(c));
        out.push(c);
    }
}

/// The fields of `s` when `delimiter` separates them: one more field than
/// there are delimiters, each possibly empty, none holding the delimiter.
pub open spec fn split(s: Seq<char>, delimiter: char) -> Seq<Seq<char>>
    decreases s.len(),
{
    if s.len() == 0 {
        seq![Seq::<char>::empty()]
    } else {
        let before = split(s.drop_last(), delimiter);
        if s.last() == delimiter {
            before.push(Seq::<char>::empty())
        } else {
            before.drop_last().push(before.last().push(s.last()))
        }
    }
}

/// `fields` written one after the other with `delimiter` between neighbours.
pub open spec fn join(fields: Seq<Seq<char>>, delimiter: char) -> Seq<char>
    decreases fields.len(),
{
    if fields.len() == 0 {
        Seq::<char>::empty()
    } else if fields.len() == 1 {
        fields[0]
    } else {
        join(fields.drop_last(), delimiter).push(delimiter) + fields.last()
    }
}

/// How often `delimiter` occurs in `s`.
pub open spec fn occurrences(s: Seq<char>, delimiter: char) -> nat
    decreases s.len(),
{
    if s.len() == 0 {
        0
    } else {
        occurrences(s.drop_last(), delimiter) + if s.last() == delimiter {
            1nat
        } else {
            0nat
        }
    }
}

/// Splitting always yields at least one field: exactly one more than the
/// delimiters in the text.
pub proof fn lemma_split_len(s: Seq<char>, delimiter: char)
    ensures
        split(s, delimiter).len() == occurrences(s, delimiter) + 1,
    decreases s.len(),
{
    if s.len() > 0 {
        lemma_split_len(s.drop_last(), delimiter);
    }
}

/// Whether no field holds the delimiter.
pub open spec fn clean(fields: Seq<Seq<char>>, delimiter: char) -> bool {
    forall|k: int, j: int|
        0 <= k < fields.len() && 0 <= j < fields[k].len() ==> fields[k][j] != delimiter
}

/// No field of a split holds the delimiter.
pub proof fn lemma_split_fields_clean(s: Seq<char>, delimiter: char)
    ensures
        clean(split(s, delimiter), delimiter),
    decreases s.len(),
{
    if s.len() > 0 {
        lemma_split_len(s.drop_last(), delimiter);
        lemma_split_fields_clean(s.drop_last(), delimiter);
    }
}

/// Joining the fields of a split with the same delimiter gives the text back.
pub proof fn lemma_join_split(s: Seq<char>, delimiter: char)
    ensures
        join(split(s, delimiter), delimiter) == s,
    decreases s.len(),
{
    if s.len() > 0 {
        let head = s.drop_last();
        let before = split(head, delimiter);
        lemma_split_len(head, delimiter);
        lemma_join_split(head, delimiter);
        if s.last() == delimiter {
            let all = before.push(Seq::<char>::empty());
            assert(all.drop_last() =~= before);
            assert(join(all, delimiter) =~= join(before, delimiter).push(delimiter));
            assert(head.push(delimiter) =~= s);
        } else {
            let grown = before.last().push(s.last());
            let all = before.drop_last().push(grown);
            assert(all.drop_last() =~= before.drop_last());
            if before.len() == 1 {
                assert(join(all, delimiter) =~= grown);
                assert(join(before, delimiter) == before[0]);
                assert(head.push(s.last()) =~= s);
            } else {
                assert(join(all, delimiter) =~= (join(before.drop_last(), delimiter).push(delimiter)
                    + before.last()).push(s.last()));
                assert(head.push(s.last()) =~= s);
            }
        }
    }
}

/// Splitting undoes joining: fields that hold no delimiter, at least one of
/// them, come back from their joined text as they were. With
/// [`lemma_join_split`] this makes the split of a text the only sequence of
/// delimiter-free fields that joins to it.
pub proof fn lemma_split_join(fields: Seq<Seq<char>>, delimiter: char)
    requires
        fields.len() >= 1,
        clean(fields, delimiter),
    ensures
        split(join(fields, delimiter), delimiter) == fields,
    decreases fields.len(), fields.last().len(),
{
    let s = join(fields, delimiter);
    let tail = fields.last();
    if tail.len() == 0 {
        assert(tail =~= Seq::<char>::empty());
        if fields.len() == 1 {
            assert(fields =~= seq![Seq::<char>::empty()]);
        } else {
            let front = fields.drop_last();
            assert(clean(front, delimiter)) by {
                assert forall|k: int, j: int|
                    0 <= k < front.len() && 0 <= j < front[k].len() implies front[k][j]
                    != delimiter by {
                    assert(front[k] == fields[k]);
                }
            }
            lemma_split_join(front, delimiter);
            assert(s =~= join(front, delimiter).push(delimiter));
            assert(s.drop_last() =~= join(front, delimiter));
            assert(front.push(Seq::<char>::empty()) =~= fields);
        }
    } else {
        let shorter = fields.drop_last().push(tail.drop_last());
        assert(clean(shorter, delimiter)) by {
            assert forall|k: int, j: int|
                0 <= k < shorter.len() && 0 <= j < shorter[k].len() implies shorter[k][j]
                != delimiter by {
                if k < fields.len() - 1 {
                    assert(shorter[k] == fields[k]);
                } else {
                    assert(shorter[k][j] == fields[k][j]);
                }
            }
        }
        assert(shorter.drop_last() =~= fields.drop_last());
        lemma_split_join(shorter, delimiter);
        assert(tail.last() == fields[fields.len() - 1][tail.len() - 1]);
        assert(s.drop_last() =~= join(shorter, delimiter));
        assert(s.last() == tail.last());
        assert(shorter.drop_last().push(shorter.last().push(tail.last())) =~= fields) by {
            assert(tail.drop_last().push(tail.last()) =~= tail);
        }
    }
}

/// Cuts `line` at every `delimiter`.
pub fn split_fields(line: &str, delimiter: char) -> (fields: Vec<String>)
    ensures
        views(fields@) == split(line@, delimiter),
{
    let text = chars_of(line);
    let mut fields: Vec<String> = Vec::new();
    let mut current = String::new();
    let mut i: usize = 0;
    while i < text.len()
        invariant
            i <= text.len(),
            views(fields@).push(current@) == split(text@.take(i as int), delimiter),
        decreases text.len() - i,
    {
        let c = text[i];
        proof {
            let more = text@.take(i + 1);
            assert(more.drop_last() =~= text@.take(i as int));
            assert(more.last() == c);
            assert(views(fields@).push(current@).drop_last() =~= views(fields@));
        }
        if c == delimiter {
            proof {
                assert(views(fields@.push(current)) =~= views(fields@).push(current@));
            }
            fields.push(current);
            current = String::new();
        } else {
            current.push(c);
        }
        i += 1;
    }
    proof {
        assert(text@.take(i as int) =~= line@);
        assert(views(fields@.push(current)) =~= views(fields@).push(current@));
    }
    fields.push(current);
    fields
}

} // verus!
