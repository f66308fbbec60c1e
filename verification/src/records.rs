//! The record format: lines of `name;value`, and the value grammar.
//!
//! A record stream is a byte sequence split into lines at `\n` (a trailing
//! `\r` on a line is ignored).  Each line is split at its first `;` into a
//! name and a value token; the token must be a decimal number with one to
//! three integer digits, exactly one fractional digit, and an optional
//! leading `-`.  Lines that do not fit this shape yield no record and are
//! skipped.  [`records_of`] is the mathematical list of records a byte
//! sequence holds; the concatenation lemmas at the end justify chunked
//! processing: splitting the stream at line boundaries never loses, invents
//! or splits a record.

use vstd::prelude::*;

verus! {

/// Line separator.
pub const SEP_LINE: u8 = 10;

/// Carriage return, tolerated before a line separator.
pub const SEP_CR: u8 = 13;

/// Field separator between name and value.
pub const SEP_FIELD: u8 = 59;

pub open spec fn is_digit(b: u8) -> bool {
    48 <= b <= 57
}

/// Numeric value of a sequence of ASCII digits, most significant first.
pub open spec fn digits_val(d: Seq<u8>) -> int
    decreases d.len(),
{
    if d.len() == 0 {
        0
    } else {
        digits_val(d.drop_last()) * 10 + (d.last() - 48)
    }
}

pub open spec fn all_digits(d: Seq<u8>) -> bool {
    forall|i: int| 0 <= i < d.len() ==> is_digit(#[trigger] d[i])
}

/// Value of an unsigned token `d{1,3}.d`, scaled to tenths.
pub open spec fn parse_unsigned_spec(t: Seq<u8>) -> Option<int> {
    if 3 <= t.len() <= 5 && t[t.len() - 2] == 46 && all_digits(t.take(t.len() - 2)) && is_digit(
        t.last(),
    ) {
        Some(digits_val(t.take(t.len() - 2)) * 10 + (t.last() - 48))
    } else {
        None
    }
}

/// Value of a token with an optional leading `-`, scaled to tenths.
pub open spec fn parse_value_spec(t: Seq<u8>) -> Option<int> {
    if t.len() > 0 && t[0] == 45 {
        match parse_unsigned_spec(t.skip(1)) {
            Option::Some(v) => Some(-v),
            Option::None => None,
        }
    } else {
        parse_unsigned_spec(t)
    }
}

/// The lines of a byte stream, split at each `\n`; a final unterminated
/// line counts, a terminating `\n` adds no empty line.
pub open spec fn lines_of(s: Seq<u8>) -> Seq<Seq<u8>>
    decreases s.len(),
    via lines_of_decreases
{
    if s.len() == 0 {
        Seq::empty()
    } else {
        match s.index_of_first(SEP_LINE) {
            Option::None => seq![s],
            Option::Some(i) => seq![s.take(i)] + lines_of(s.skip(i + 1)),
        }
    }
}

#[via_fn]
proof fn lines_of_decreases(s: Seq<u8>) {
    if s.len() != 0 {
        s.index_of_first_ensures(SEP_LINE);
    }
}

/// A line without its trailing carriage return, if it carries one.
pub open spec fn strip_cr(l: Seq<u8>) -> Seq<u8> {
    if l.len() > 0 && l.last() == SEP_CR {
        l.drop_last()
    } else {
        l
    }
}

/// The record a single line holds, if it is well-formed.
pub open spec fn record_of_line(l: Seq<u8>) -> Option<(Seq<u8>, int)> {
    let c = strip_cr(l);
    match c.index_of_first(SEP_FIELD) {
        Option::None => None,
        Option::Some(j) => match parse_value_spec(c.skip(j + 1)) {
            Option::Some(v) => Some((c.take(j), v)),
            Option::None => None,
        },
    }
}

/// All records of a list of lines, malformed lines skipped.
pub open spec fn records_of_lines(ls: Seq<Seq<u8>>) -> Seq<(Seq<u8>, int)>
    decreases ls.len(),
{
    if ls.len() == 0 {
        Seq::empty()
    } else {
        records_of_lines(ls.drop_last()) + match record_of_line(ls.last()) {
            Option::Some(r) => seq![r],
            Option::None => Seq::empty(),
        }
    }
}

/// The records a byte stream holds.
pub open spec fn records_of(s: Seq<u8>) -> Seq<(Seq<u8>, int)> {
    records_of_lines(lines_of(s))
}

/// Every parsed value is at most four scaled digits in magnitude.
pub proof fn lemma_digits_val_bound(d: Seq<u8>)
    requires
        all_digits(d),
        d.len() <= 3,
    ensures
        0 <= digits_val(d) <= 999,
        d.len() <= 2 ==> digits_val(d) <= 99,
        d.len() <= 1 ==> digits_val(d) <= 9,
    decreases d.len(),
{
    if d.len() > 0 {
        assert(all_digits(d.drop_last())) by {
            assert(forall|i: int|
                0 <= i < d.len() - 1 ==> #[trigger] d.drop_last()[i] == d[i]);
        }
        lemma_digits_val_bound(d.drop_last());
    }
}

/// Parsed values lie within `[-9999, 9999]` tenths.
pub proof fn lemma_parse_value_bound(t: Seq<u8>)
    ensures
        match parse_value_spec(t) {
            Option::Some(v) => -9999 <= v <= 9999,
            Option::None => true,
        },
{
    if t.len() > 0 && t[0] == 45 {
        lemma_parse_unsigned_bound(t.skip(1));
    } else {
        lemma_parse_unsigned_bound(t);
    }
}

proof fn lemma_parse_unsigned_bound(t: Seq<u8>)
    ensures
        match parse_unsigned_spec(t) {
            Option::Some(v) => 0 <= v <= 9999,
            Option::None => true,
        },
{
    if parse_unsigned_spec(t) is Some {
        lemma_digits_val_bound(t.take(t.len() - 2));
    }
}

/// If a byte occurs first at `i`, `index_of_first` returns exactly `i`.
pub proof fn lemma_index_of_first_is(s: Seq<u8>, needle: u8, i: int)
    requires
        0 <= i < s.len(),
        s[i] == needle,
        forall|j: int| 0 <= j < i ==> s[j] != needle,
    ensures
        s.index_of_first(needle) == Some(i),
{
    s.index_of_first_ensures(needle);
    match s.index_of_first(needle) {
        Option::None => {
            assert(s.contains(needle)) by {
                assert(s[i] == needle);
            }
        },
        Option::Some(k) => {
            if k < i {
            } else if k > i {
            }
        },
    }
}

/// A byte sequence without the separator is one single line.
pub proof fn lemma_lines_single(s: Seq<u8>)
    requires
        s.len() > 0,
        forall|j: int| 0 <= j < s.len() ==> s[j] != SEP_LINE,
    ensures
        lines_of(s) =~= seq![s],
{
    s.index_of_first_ensures(SEP_LINE);
    match s.index_of_first(SEP_LINE) {
        Option::None => {},
        Option::Some(i) => {},
    }
}

/// Splitting a stream after a line separator splits its line list.
pub proof fn lemma_lines_concat(a: Seq<u8>, b: Seq<u8>)
    requires
        a.len() == 0 || a.last() == SEP_LINE,
    ensures
        lines_of(a + b) =~= lines_of(a) + lines_of(b),
    decreases a.len(),
{
    if a.len() == 0 {
        assert(a + b =~= b);
    } else {
        a.index_of_first_ensures(SEP_LINE);
        match a.index_of_first(SEP_LINE) {
            Option::None => {
                assert(a.contains(SEP_LINE)) by {
                    assert(a[a.len() - 1] == SEP_LINE);
                }
            },
            Option::Some(i) => {
                let s = a + b;
                assert(s[i] == SEP_LINE);
                assert(forall|j: int| 0 <= j < i ==> s[j] == a[j] && s[j] != SEP_LINE);
                lemma_index_of_first_is(s, SEP_LINE, i);
                assert(s.take(i) =~= a.take(i));
                assert(s.skip(i + 1) =~= a.skip(i + 1) + b);
                let a2 = a.skip(i + 1);
                assert(a2.len() == 0 || a2.last() == SEP_LINE);
                lemma_lines_concat(a2, b);
                if s.len() > 0 {
                }
            },
        }
    }
}

/// Record lists concatenate along line lists.
pub proof fn lemma_records_of_lines_concat(l1: Seq<Seq<u8>>, l2: Seq<Seq<u8>>)
    ensures
        records_of_lines(l1 + l2) =~= records_of_lines(l1) + records_of_lines(l2),
    decreases l2.len(),
{
    if l2.len() == 0 {
        assert(l1 + l2 =~= l1);
    } else {
        lemma_records_of_lines_concat(l1, l2.drop_last());
        assert((l1 + l2).drop_last() =~= l1 + l2.drop_last());
        assert((l1 + l2).last() == l2.last());
    }
}

/// Splitting a stream right after a line separator splits its record list:
/// chunking at record boundaries neither loses nor invents records.
pub proof fn lemma_records_concat(a: Seq<u8>, b: Seq<u8>)
    requires
        a.len() == 0 || a.last() == SEP_LINE,
    ensures
        records_of(a + b) =~= records_of(a) + records_of(b),
{
    lemma_lines_concat(a, b);
    lemma_records_of_lines_concat(lines_of(a), lines_of(b));
    assert(records_of_lines(lines_of(a) + lines_of(b)) =~= records_of(a + b));
}

/// There are no more records than lines.
pub proof fn lemma_records_of_lines_count(ls: Seq<Seq<u8>>)
    ensures
        records_of_lines(ls).len() <= ls.len(),
    decreases ls.len(),
{
    if ls.len() > 0 {
        lemma_records_of_lines_count(ls.drop_last());
    }
}

/// Without any requirement on its last byte, a stream still has at most one
/// line more than it has bytes.
pub proof fn lemma_lines_count_total(s: Seq<u8>)
    ensures
        lines_of(s).len() <= s.len() + 1,
    decreases s.len(),
{
    if s.len() > 0 {
        s.index_of_first_ensures(SEP_LINE);
        match s.index_of_first(SEP_LINE) {
            Option::None => {},
            Option::Some(i) => {
                lemma_lines_count_total(s.skip(i + 1));
            },
        }
    }
}

/// A stream holds at most one record more than it has bytes.
pub proof fn lemma_records_total(s: Seq<u8>)
    ensures
        records_of(s).len() <= s.len() + 1,
{
    lemma_lines_count_total(s);
    lemma_records_of_lines_count(lines_of(s));
}

/// Appending one separator-terminated line appends that line's record, if any.
pub proof fn lemma_records_line_terminated(a: Seq<u8>, line: Seq<u8>)
    requires
        a.len() == 0 || a.last() == SEP_LINE,
        forall|j: int| 0 <= j < line.len() ==> line[j] != SEP_LINE,
    ensures
        records_of(a + line + seq![SEP_LINE]) =~= records_of(a) + match record_of_line(line) {
            Option::Some(r) => seq![r],
            Option::None => Seq::empty(),
        },
{
    let lb = line + seq![SEP_LINE];
    assert(a + line + seq![SEP_LINE] =~= a + lb);
    lemma_records_concat(a, lb);
    assert(lb[line.len() as int] == SEP_LINE);
    assert(forall|j: int| 0 <= j < line.len() ==> lb[j] == line[j]);
    lemma_index_of_first_is(lb, SEP_LINE, line.len() as int);
    assert(lb.take(line.len() as int) == line) by {
        assert(lb.take(line.len() as int) =~= line);
    }
    assert(lb.skip(line.len() as int + 1) == Seq::<u8>::empty()) by {
        assert(lb.skip(line.len() as int + 1) =~= Seq::<u8>::empty());
    }
    assert(lines_of(Seq::<u8>::empty()) =~= Seq::<Seq<u8>>::empty());
    assert(lines_of(lb) =~= seq![line]) by {
        assert(lines_of(lb) == seq![lb.take(line.len() as int)] + lines_of(
            lb.skip(line.len() as int + 1),
        ));
        assert(seq![line] + Seq::<Seq<u8>>::empty() =~= seq![line]);
    }
    assert(seq![line].drop_last() == Seq::<Seq<u8>>::empty()) by {
        assert(seq![line].drop_last() =~= Seq::<Seq<u8>>::empty());
    }
    assert(records_of(lb) =~= records_of_lines(seq![line]));
    assert(records_of_lines(Seq::<Seq<u8>>::empty()) =~= Seq::<(Seq<u8>, int)>::empty());
    assert(records_of_lines(seq![line]) =~= Seq::<(Seq<u8>, int)>::empty() + match record_of_line(
        line,
    ) {
        Option::Some(r) => seq![r],
        Option::None => Seq::empty(),
    });
    assert(Seq::<(Seq<u8>, int)>::empty() + match record_of_line(line) {
        Option::Some(r) => seq![r],
        Option::None => Seq::<(Seq<u8>, int)>::empty(),
    } =~= match record_of_line(line) {
        Option::Some(r) => seq![r],
        Option::None => Seq::<(Seq<u8>, int)>::empty(),
    });
}

/// Appending a final, unterminated line appends that line's record, if any.
pub proof fn lemma_records_line_final(a: Seq<u8>, line: Seq<u8>)
    requires
        a.len() == 0 || a.last() == SEP_LINE,
        forall|j: int| 0 <= j < line.len() ==> line[j] != SEP_LINE,
    ensures
        records_of(a + line) =~= records_of(a) + match record_of_line(line) {
            Option::Some(r) => seq![r],
            Option::None => Seq::empty(),
        },
{
    if line.len() == 0 {
        assert(a + line =~= a);
        assert(strip_cr(line) =~= line);
        line.index_of_first_ensures(SEP_FIELD);
        match line.index_of_first(SEP_FIELD) {
            Option::None => {},
            Option::Some(j) => {},
        }
        assert(record_of_line(line) is None);
    } else {
        lemma_records_concat(a, line);
        lemma_lines_single(line);
        assert(seq![line].drop_last() == Seq::<Seq<u8>>::empty()) by {
            assert(seq![line].drop_last() =~= Seq::<Seq<u8>>::empty());
        }
        assert(records_of(line) =~= records_of_lines(seq![line]));
        assert(records_of_lines(Seq::<Seq<u8>>::empty()) =~= Seq::<(Seq<u8>, int)>::empty());
        assert(records_of_lines(seq![line]) =~= Seq::<(Seq<u8>, int)>::empty()
            + match record_of_line(line) {
            Option::Some(r) => seq![r],
            Option::None => Seq::empty(),
        });
        assert(Seq::<(Seq<u8>, int)>::empty() + match record_of_line(line) {
            Option::Some(r) => seq![r],
            Option::None => Seq::<(Seq<u8>, int)>::empty(),
        } =~= match record_of_line(line) {
            Option::Some(r) => seq![r],
            Option::None => Seq::<(Seq<u8>, int)>::empty(),
        });
    }
}

/// Unit struct reported when a value token does not fit the grammar.
#[derive(Clone, Copy, Debug, PartialEq, Eq, Structural)]
pub struct ParseError;

/// Parses a value token into tenths, accepting exactly the tokens of
/// [`parse_value_spec`]; malformed tokens are reported, never panicked on.
pub fn parse_i32(value: &[u8]) -> (r: Result<i32, ParseError>)
    ensures
        match r {
            Result::Ok(v) => parse_value_spec(value@) == Some(v as int) && -9999 <= v <= 9999,
            Result::Err(_) => parse_value_spec(value@) is None,
        },
{
    let n = value.len();
    let off: usize = if n > 0 && value[0] == 45 {
        1
    } else {
        0
    };
    let ghost t = value@.skip(off as int);
    if n < off + 3 || n > off + 5 {
        assert(!(3 <= t.len() <= 5));
        return Err(ParseError);
    }
    assert(3 <= t.len() <= 5);
    if value[n - 2] != 46 {
        assert(t[t.len() - 2] == value@[n - 2]);
        return Err(ParseError);
    }
    let last = value[n - 1];
    if !(48 <= last && last <= 57) {
        assert(t.last() == value@[n - 1]);
        return Err(ParseError);
    }
    let ghost d = t.take(t.len() - 2);
    assert(d.len() == n - 2 - off);
    let mut acc: i32 = 0;
    let mut k: usize = off;
    while k < n - 2
        invariant
            off <= k <= n - 2,
            n == value@.len(),
            n - 2 - off <= 3,
            off == 1 <==> value@.len() > 0 && value@[0] == 45,
            off <= 1,
            t == value@.skip(off as int),
            d == t.take(t.len() - 2),
            d == value@.skip(off as int).take(n - 2 - off),
            all_digits(d.take(k - off)),
            acc == digits_val(d.take(k - off)),
            0 <= acc <= 999,
        decreases n - 2 - k,
    {
        let c = value[k];
        if !(48 <= c && c <= 57) {
            assert(!all_digits(d)) by {
                assert(d[k - off] == value@[k as int]);
                assert(!is_digit(d[k - off]));
            }
            assert(parse_unsigned_spec(t) is None);
            return Err(ParseError);
        }
        assert(d.take(k + 1 - off).drop_last() =~= d.take(k - off));
        assert(d.take(k + 1 - off).last() == value@[k as int]);
        proof {
            lemma_digits_val_bound(d.take(k - off));
        }
        acc = acc * 10 + (c - 48) as i32;
        k = k + 1;
        proof {
            lemma_digits_val_bound(d.take(k - off));
        }
    }
    assert(d.take(k - off) =~= d);
    assert(t.last() == value@[n - 1]);
    let v = acc * 10 + (last - 48) as i32;
    assert(parse_unsigned_spec(t) == Some(v as int));
    if off == 1 {
        assert(value@[0] == 45);
        Ok(-v)
    } else {
        assert(!(value@.len() > 0 && value@[0] == 45));
        assert(t =~= value@);
        Ok(v)
    }
}

} // verus!
