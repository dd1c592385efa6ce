//! Reading a table of unsigned integers from its text: lines split at
//! newlines (a carriage return before a newline dropped), fields split at
//! commas, each field an unsigned decimal as `from_str` reads it.
use vstd::prelude::*;

verus! {

/// ASCII `0`..`9`.
pub open spec fn is_digit(b: u8) -> bool {
    48 <= b <= 57
}

/// The value of a string of decimal digits.
pub open spec fn digits_value(s: Seq<u8>) -> nat
    decreases s.len(),
{
    if s.len() == 0 {
        0
    } else {
        digits_value(s.drop_last()) * 10 + (s.last() - 48) as nat
    }
}

/// The field without a leading `+`.
pub open spec fn digits_part(s: Seq<u8>) -> Seq<u8> {
    if s.len() > 0 && s[0] == 43 {
        s.drop_first()
    } else {
        s
    }
}

/// The value of an unsigned decimal field: an optional `+`, then one digit
/// or more, with a value no greater than `max`; `None` for anything else.
pub open spec fn unsigned_value(s: Seq<u8>, max: nat) -> Option<nat> {
    let d = digits_part(s);
    if d.len() > 0 && (forall|k: int| 0 <= k < d.len() ==> is_digit(#[trigger] d[k]))
        && digits_value(d) <= max {
        Some(digits_value(d))
    } else {
        None
    }
}

proof fn lemma_digits_value_prefix(s: Seq<u8>, k: int)
    requires
        0 <= k <= s.len(),
        forall|j: int| 0 <= j < s.len() ==> is_digit(#[trigger] s[j]),
    ensures
        digits_value(s.subrange(0, k)) <= digits_value(s),
    decreases s.len() - k,
{
    if k < s.len() {
        lemma_digits_value_prefix(s, k + 1);
        assert(s.subrange(0, k + 1).drop_last() =~= s.subrange(0, k));
    } else {
        assert(s.subrange(0, k) =~= s);
    }
}

fn parse_unsigned_in(s: &Vec<u8>, from: usize, to: usize, max: u32) -> (r: Option<u32>)
    requires
        from <= to <= s.len(),
    ensures
        r is Some <==> unsigned_value(s@.subrange(from as int, to as int), max as nat) is Some,
        r matches Some(v) ==> v == unsigned_value(
            s@.subrange(from as int, to as int),
            max as nat,
        ).unwrap(),
{
    let ghost field = s@.subrange(from as int, to as int);
    let mut start = from;
    if from < to && s[from] == 43 {
        start = from + 1;
    }
    let ghost d = s@.subrange(start as int, to as int);
    assert(digits_part(field) =~= d);
    if start == to {
        return None;
    }
    let mut value: u64 = 0;
    let mut k: usize = start;
    while k < to
        invariant
            start <= k <= to <= s.len(),
            d == s@.subrange(start as int, to as int),
            field == s@.subrange(from as int, to as int),
            digits_part(field) == d,
            value == digits_value(s@.subrange(start as int, k as int)),
            value <= max,
            forall|j: int| start <= j < k ==> is_digit(#[trigger] s@[j]),
        decreases to - k,
    {
        let b = s[k];
        if b < 48 || b > 57 {
            assert(d[k - start] == s@[k as int]);
            assert(!is_digit(d[k - start]));
            return None;
        }
        assert(s@.subrange(start as int, k + 1).drop_last() =~= s@.subrange(start as int, k as int));
        assert(s@.subrange(start as int, k + 1).last() == b);
        value = value * 10 + (b - 48) as u64;
        if value > max as u64 {
            proof {
                assert forall|j: int| 0 <= j < k + 1 - start implies is_digit(
                    #[trigger] s@.subrange(start as int, k + 1)[j],
                ) by {
                    assert(s@.subrange(start as int, k + 1)[j] == s@[start + j]);
                }
                if forall|j: int| 0 <= j < d.len() ==> is_digit(#[trigger] d[j]) {
                    lemma_digits_value_prefix(d, k + 1 - start);
                    assert(d.subrange(0, k + 1 - start) =~= s@.subrange(start as int, k + 1));
                }
            }
            return None;
        }
        k = k + 1;
    }
    assert(s@.subrange(start as int, k as int) =~= d);
    Some(value as u32)
}

/// The value of an unsigned decimal field, as `from_str` reads it for an
/// unsigned type whose largest value is `max`; `None` when it does not read.
pub fn parse_unsigned(field: &Vec<u8>, max: u32) -> (r: Option<u32>)
    ensures
        r is Some <==> unsigned_value(field@, max as nat) is Some,
        r matches Some(v) ==> v == unsigned_value(field@, max as nat).unwrap(),
{
    assert(field@.subrange(0, field.len() as int) =~= field@);
    parse_unsigned_in(field, 0, field.len(), max)
}

/// The position of the first `b` at or after `from`, or the length when
/// there is none.
pub open spec fn first_at_or_after(t: Seq<u8>, from: int, b: u8) -> int
    decreases t.len() - from,
{
    if from < 0 || from >= t.len() {
        t.len() as int
    } else if t[from] == b {
        from
    } else {
        first_at_or_after(t, from + 1, b)
    }
}

/// Where the line that starts at `from` ends: before its newline, and
/// before a carriage return that stands just before that newline.
pub open spec fn line_stop(t: Seq<u8>, from: int) -> int {
    let e = first_at_or_after(t, from, 10);
    if e < t.len() && e > from && t[e - 1] == 13 {
        e - 1
    } else {
        e
    }
}

/// The lines of the text from position `from` on. A text that ends with a
/// newline has no empty line after it.
pub open spec fn lines_from(t: Seq<u8>, from: int) -> Seq<Seq<u8>>
    decreases t.len() - from,
{
    if from < 0 || from >= t.len() {
        Seq::empty()
    } else {
        let e = first_at_or_after(t, from, 10);
        proof {
            lemma_first_at_or_after_bounds(t, from, 10);
        }
        seq![t.subrange(from, line_stop(t, from))] + if e < t.len() {
            lines_from(t, e + 1)
        } else {
            Seq::empty()
        }
    }
}

/// The fields of the line from position `from` on: the pieces between
/// commas. There is always one field after the last comma.
pub open spec fn fields_from(line: Seq<u8>, from: int) -> Seq<Seq<u8>>
    decreases line.len() - from,
{
    let c = first_at_or_after(line, from, 44);
    proof {
        if from >= 0 {
            lemma_first_at_or_after_bounds(line, from, 44);
        }
    }
    if from < 0 || from > line.len() {
        Seq::empty()
    } else if c >= line.len() {
        seq![line.subrange(from, line.len() as int)]
    } else {
        seq![line.subrange(from, c)] + fields_from(line, c + 1)
    }
}

/// The search stops at the first `b` from `from` on, or at the end.
pub proof fn lemma_first_at_or_after_bounds(t: Seq<u8>, from: int, b: u8)
    requires
        0 <= from,
    ensures
        from <= first_at_or_after(t, from, b) <= t.len() || (from > t.len()
            && first_at_or_after(t, from, b) == t.len()),
        first_at_or_after(t, from, b) < t.len() ==> t[first_at_or_after(t, from, b)] == b,
        forall|j: int| from <= j < first_at_or_after(t, from, b) ==> t[j] != b,
    decreases t.len() - from,
{
    if from < t.len() && t[from] != b {
        lemma_first_at_or_after_bounds(t, from + 1, b);
    }
}

fn find_byte(t: &Vec<u8>, from: usize, to: usize, b: u8) -> (e: usize)
    requires
        from <= to <= t.len(),
    ensures
        e == first_at_or_after(t@.subrange(0, to as int), from as int, b),
{
    let ghost u = t@.subrange(0, to as int);
    let mut e = from;
    while e < to && t[e] != b
        invariant
            from <= e <= to <= t.len(),
            u == t@.subrange(0, to as int),
            first_at_or_after(u, from as int, b) == first_at_or_after(u, e as int, b),
        decreases to - e,
    {
        e = e + 1;
    }
    e
}

fn copy_range(t: &Vec<u8>, from: usize, to: usize) -> (r: Vec<u8>)
    requires
        from <= to <= t.len(),
    ensures
        r@ == t@.subrange(from as int, to as int),
{
    let mut r: Vec<u8> = Vec::new();
    let mut k = from;
    while k < to
        invariant
            from <= k <= to <= t.len(),
            r@ == t@.subrange(from as int, k as int),
        decreases to - k,
    {
        r.push(t[k]);
        assert(r@ =~= t@.subrange(from as int, k + 1));
        k = k + 1;
    }
    r
}

/// Every field of every line reads as an unsigned decimal no greater than
/// `max`.
pub open spec fn all_fields_read(t: Seq<u8>, max: nat) -> bool {
    forall|r: int, k: int|
        0 <= r < lines_from(t, 0).len() && 0 <= k < fields_from(lines_from(t, 0)[r], 0).len()
            ==> (#[trigger] unsigned_value(fields_from(lines_from(t, 0)[r], 0)[k], max)) is Some
}

fn parse_fields(line: &Vec<u8>, max: u32) -> (r: Option<Vec<u32>>)
    ensures
        r is Some <==> forall|k: int|
            0 <= k < fields_from(line@, 0).len() ==> (#[trigger] unsigned_value(
                fields_from(line@, 0)[k],
                max as nat,
            )) is Some,
        r matches Some(v) ==> v@.len() == fields_from(line@, 0).len() && forall|k: int|
            0 <= k < v@.len() ==> v@[k] == unsigned_value(fields_from(line@, 0)[k], max as nat).unwrap(),
{
    let ghost l = line@;
    let mut values: Vec<u32> = Vec::new();
    let mut pos: usize = 0;
    let ghost mut done: Seq<Seq<u8>> = Seq::empty();
    assert(line@.subrange(0, line.len() as int) =~= l);
    loop
        invariant
            l == line@,
            pos <= line.len(),
            done + fields_from(l, pos as int) == fields_from(l, 0),
            values@.len() == done.len(),
            forall|k: int|
                0 <= k < done.len() ==> (#[trigger] unsigned_value(done[k], max as nat)) is Some
                    && values@[k] == unsigned_value(done[k], max as nat).unwrap(),
        decreases line.len() - pos,
    {
        let c = find_byte(line, pos, line.len(), 44);
        assert(l.subrange(0, l.len() as int) =~= l);
        proof {
            lemma_first_at_or_after_bounds(l, pos as int, 44);
        }
        let ghost field = l.subrange(pos as int, c as int);
        match parse_unsigned_in(line, pos, c, max) {
            None => {
                proof {
                    if c >= l.len() {
                        assert(fields_from(l, pos as int) == seq![field]);
                    } else {
                        assert(fields_from(l, pos as int) == seq![field] + fields_from(l, c + 1));
                    }
                    assert(fields_from(l, 0)[done.len() as int] == field);
                }
                return None;
            },
            Some(v) => {
                values.push(v);
                if c >= line.len() {
                    proof {
                        assert(fields_from(l, pos as int) == seq![field]);
                        done = done.push(field);
                        assert(done =~= fields_from(l, 0));
                    }
                    return Some(values);
                }
                proof {
                    assert(fields_from(l, pos as int) == seq![field] + fields_from(l, c + 1));
                    assert(done + fields_from(l, pos as int) =~= done.push(field) + fields_from(
                        l,
                        c + 1,
                    ));
                    done = done.push(field);
                }
                pos = c + 1;
            },
        }
    }
}

/// The table that the text holds, one row per line and one value per
/// field; `None` when some field does not read as an unsigned decimal of
/// `u32`.
pub fn parse_u32_rows(text: &Vec<u8>) -> (rows: Option<Vec<Vec<u32>>>)
    ensures
        rows is Some <==> all_fields_read(text@, u32::MAX as nat),
        rows matches Some(m) ==> m.len() == lines_from(text@, 0).len() && forall|r: int|
            0 <= r < m.len() ==> (#[trigger] m@[r])@.len() == fields_from(
                lines_from(text@, 0)[r],
                0,
            ).len() && forall|k: int|
                0 <= k < m@[r]@.len() ==> m@[r]@[k] == unsigned_value(
                    fields_from(lines_from(text@, 0)[r], 0)[k],
                    u32::MAX as nat,
                ).unwrap(),
{
    let ghost t = text@;
    let ghost all = lines_from(t, 0);
    let mut rows: Vec<Vec<u32>> = Vec::new();
    let mut pos: usize = 0;
    let ghost mut done: Seq<Seq<u8>> = Seq::empty();
    assert(t.subrange(0, t.len() as int) =~= t);
    while pos < text.len()
        invariant
            t == text@,
            all == lines_from(t, 0),
            pos <= text.len(),
            done + lines_from(t, pos as int) == all,
            rows@.len() == done.len(),
            forall|r: int, k: int|
                0 <= r < done.len() && 0 <= k < fields_from(done[r], 0).len()
                    ==> (#[trigger] unsigned_value(fields_from(done[r], 0)[k], u32::MAX as nat)) is Some,
            forall|r: int|
                0 <= r < done.len() ==> (#[trigger] rows@[r])@.len() == fields_from(done[r], 0).len()
                    && forall|k: int|
                    0 <= k < rows@[r]@.len() ==> rows@[r]@[k] == unsigned_value(
                        fields_from(done[r], 0)[k],
                        u32::MAX as nat,
                    ).unwrap(),
        decreases text.len() - pos,
    {
        assert(t.subrange(0, t.len() as int) =~= t);
        let e = find_byte(text, pos, text.len(), 10);
        proof {
            lemma_first_at_or_after_bounds(t, pos as int, 10);
        }
        let mut stop = e;
        if e < text.len() && e > pos && text[e - 1] == 13 {
            stop = e - 1;
        }
        let line = copy_range(text, pos, stop);
        let ghost ln = line@;
        let ghost rest = if e < t.len() {
            lines_from(t, e + 1)
        } else {
            Seq::empty()
        };
        assert(lines_from(t, pos as int) == seq![ln] + rest);
        match parse_fields(&line, u32::MAX) {
            None => {
                proof {
                    assert(all[done.len() as int] == ln);
                    let k = choose|k: int|
                        0 <= k < fields_from(ln, 0).len() && !(#[trigger] unsigned_value(
                            fields_from(ln, 0)[k],
                            u32::MAX as nat,
                        ) is Some);
                    assert(!(unsigned_value(fields_from(all[done.len() as int], 0)[k], u32::MAX as nat) is Some));
                }
                return None;
            },
            Some(values) => {
                rows.push(values);
                proof {
                    assert(done + lines_from(t, pos as int) =~= done.push(ln) + rest);
                    done = done.push(ln);
                }
            },
        }
        if e >= text.len() {
            assert(done =~= all);
            return Some(rows);
        }
        pos = e + 1;
    }
    assert(lines_from(t, pos as int) =~= Seq::<Seq<u8>>::empty());
    assert(done =~= all);
    Some(rows)
}

} // verus!
