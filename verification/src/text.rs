//! Bytes of a tab-separated file: lines, trimmed lines, fields, decimal numbers.

use vstd::prelude::*;

verus! {

/// The tab that separates the fields of a line.
pub const TAB: u8 = 9;

/// The line feed that separates the lines of a file.
pub const LINE_FEED: u8 = 10;

/// A list of byte strings as sequences.
pub open spec fn byte_seqs(v: &Vec<Vec<u8>>) -> Seq<Seq<u8>> {
    Seq::new(v@.len(), |k: int| v@[k]@)
}

/// White space at the ends of a line: tab, line feed, vertical tab, form feed,
/// carriage return and space.
pub open spec fn is_space(b: u8) -> bool {
    (9 <= b <= 13) || b == 32
}

/// `s` without the white space it starts with.
pub open spec fn trim_start(s: Seq<u8>) -> Seq<u8>
    decreases s.len(),
{
    if s.len() > 0 && is_space(s[0]) {
        trim_start(s.skip(1))
    } else {
        s
    }
}

/// `s` without the white space it ends with.
pub open spec fn trim_end(s: Seq<u8>) -> Seq<u8>
    decreases s.len(),
{
    if s.len() > 0 && is_space(s.last()) {
        trim_end(s.drop_last())
    } else {
        s
    }
}

/// `s` without the white space at either end.
pub open spec fn trimmed(s: Seq<u8>) -> Seq<u8> {
    trim_end(trim_start(s))
}

/// The length of `s` up to its first `sep`, or all of it where it has none.
pub open spec fn first_field_len(s: Seq<u8>, sep: u8) -> nat
    decreases s.len(),
{
    if s.len() == 0 || s[0] == sep {
        0
    } else {
        1 + first_field_len(s.skip(1), sep)
    }
}

/// The pieces of `s` between its separators, in order. There is always at
/// least one piece, and a piece may be empty.
pub open spec fn split_on(s: Seq<u8>, sep: u8) -> Seq<Seq<u8>>
    decreases s.len(),
{
    let k = first_field_len(s, sep);
    if k >= s.len() {
        seq![s]
    } else {
        seq![s.take(k as int)] + split_on(s.skip(k as int + 1), sep)
    }
}

/// The fields of a line: the tab-separated pieces of the trimmed line.
pub open spec fn fields_of(line: Seq<u8>) -> Seq<Seq<u8>> {
    split_on(trimmed(line), TAB)
}

/// The lines of a file: its pieces between line feeds, without the empty piece
/// after a final line feed. A carriage return stays with its line.
pub open spec fn lines_of(content: Seq<u8>) -> Seq<Seq<u8>> {
    let pieces = split_on(content, LINE_FEED);
    if pieces.last().len() == 0 {
        pieces.drop_last()
    } else {
        pieces
    }
}

/// Whether `b` is a decimal digit.
pub open spec fn is_digit(b: u8) -> bool {
    48 <= b <= 57
}

/// Whether `s` holds decimal digits only.
pub open spec fn all_digits(s: Seq<u8>) -> bool {
    forall|k: int| 0 <= k < s.len() ==> is_digit(#[trigger] s[k])
}

/// The number that the decimal digits `s` write.
pub open spec fn digits_value(s: Seq<u8>) -> nat
    decreases s.len(),
{
    if s.len() == 0 {
        0
    } else {
        digits_value(s.drop_last()) * 10 + (s.last() - 48) as nat
    }
}

/// The digits of an unsigned number: `s` without one leading plus sign.
pub open spec fn digits_part(s: Seq<u8>) -> Seq<u8> {
    if s.len() > 0 && s[0] == 43 {
        s.skip(1)
    } else {
        s
    }
}

/// The unsigned decimal number that `s` writes, if it writes one that is at
/// most `max`: an optional plus sign, then one or more digits.
pub open spec fn decimal_of(s: Seq<u8>, max: nat) -> Option<nat> {
    let d = digits_part(s);
    if d.len() > 0 && all_digits(d) && digits_value(d) <= max {
        Some(digits_value(d))
    } else {
        None
    }
}

/// The pieces written one after the other with `sep` between them.
pub open spec fn join_with(pieces: Seq<Seq<u8>>, sep: u8) -> Seq<u8>
    decreases pieces.len(),
{
    if pieces.len() == 0 {
        Seq::empty()
    } else if pieces.len() == 1 {
        pieces[0]
    } else {
        pieces[0] + seq![sep] + join_with(pieces.skip(1), sep)
    }
}

/// The first field ends at the first separator, or at the end.
pub proof fn lemma_first_field_ends(s: Seq<u8>, sep: u8)
    ensures
        first_field_len(s, sep) <= s.len(),
        forall|j: int| 0 <= j < first_field_len(s, sep) ==> s[j] != sep,
        first_field_len(s, sep) < s.len() ==> s[first_field_len(s, sep) as int] == sep,
    decreases s.len(),
{
    if s.len() > 0 && s[0] != sep {
        lemma_first_field_ends(s.skip(1), sep);
        let k = first_field_len(s.skip(1), sep) as int;
        assert forall|j: int| 0 <= j < k + 1 implies s[j] != sep by {
            if j > 0 {
                assert(s.skip(1)[j - 1] == s[j]);
            }
        }
        if k < s.skip(1).len() {
            assert(s.skip(1)[k] == s[k + 1]);
        }
    }
}

/// Splitting is the inverse of joining: the pieces hold no separator, and
/// joined with the separator they are the text again.
pub proof fn lemma_split_then_join(s: Seq<u8>, sep: u8)
    ensures
        split_on(s, sep).len() >= 1,
        join_with(split_on(s, sep), sep) == s,
        forall|i: int, j: int|
            0 <= i < split_on(s, sep).len() && 0 <= j < split_on(s, sep)[i].len() ==> split_on(
                s,
                sep,
            )[i][j] != sep,
    decreases s.len(),
{
    lemma_first_field_ends(s, sep);
    let k = first_field_len(s, sep) as int;
    let pieces = split_on(s, sep);
    if k < s.len() {
        let rest = s.skip(k + 1);
        lemma_split_then_join(rest, sep);
        let tail = split_on(rest, sep);
        assert(pieces =~= seq![s.take(k)] + tail);
        assert(pieces.skip(1) =~= tail);
        assert(pieces[0] == s.take(k));
        assert(s.take(k) + seq![sep] + rest =~= s);
        assert forall|i: int, j: int|
            0 <= i < pieces.len() && 0 <= j < pieces[i].len() implies pieces[i][j] != sep by {
            if i > 0 {
                assert(pieces[i] == tail[i - 1]);
            }
        }
    }
}

/// The first `k` bytes before a separator, or before the end, are the first field.
pub proof fn lemma_first_field(s: Seq<u8>, sep: u8, k: int)
    requires
        0 <= k <= s.len(),
        forall|j: int| 0 <= j < k ==> s[j] != sep,
        k == s.len() || s[k] == sep,
    ensures
        first_field_len(s, sep) == k,
    decreases k,
{
    if k > 0 {
        lemma_first_field(s.skip(1), sep, k - 1);
    }
}

/// Digits that go on write no smaller a number.
pub proof fn lemma_digits_grow(s: Seq<u8>, n: int)
    requires
        0 <= n <= s.len(),
    ensures
        digits_value(s.take(n)) <= digits_value(s),
    decreases s.len() - n,
{
    if n < s.len() {
        lemma_digits_grow(s.drop_last(), n);
        assert(s.drop_last().take(n) =~= s.take(n));
    } else {
        assert(s.take(n) =~= s);
    }
}

/// Whether two byte strings are the same.
pub fn same_bytes(a: &Vec<u8>, b: &Vec<u8>) -> (same: bool)
    ensures
        same == (a@ == b@),
{
    if a.len() != b.len() {
        return false;
    }
    let mut k: usize = 0;
    while k < a.len()
        invariant
            a@.len() == b@.len(),
            k <= a@.len(),
            forall|m: int| 0 <= m < k ==> a@[m] == b@[m],
        decreases a@.len() - k,
    {
        if a[k] != b[k] {
            return false;
        }
        k += 1;
    }
    assert(a@ =~= b@);
    true
}

/// Whether `b` is white space.
pub fn is_space_byte(b: u8) -> (res: bool)
    ensures
        res == is_space(b),
{
    (9 <= b && b <= 13) || b == 32
}

/// The part of `s` from `a` up to `b` is what is left of `s` without the
/// white space at its ends: all before and all behind is white space, and the
/// part neither starts nor ends with any.
pub open spec fn is_core(s: Seq<u8>, a: int, b: int) -> bool {
    &&& 0 <= a <= b <= s.len()
    &&& forall|j: int| 0 <= j < a ==> is_space(#[trigger] s[j])
    &&& forall|j: int| b <= j < s.len() ==> is_space(#[trigger] s[j])
    &&& a < b ==> !is_space(s[a]) && !is_space(s[b - 1])
}

/// Copies a line without the white space at either end.
pub fn trim(line: &Vec<u8>) -> (res: Vec<u8>)
    ensures
        res@ == trimmed(line@),
        exists|a: int, b: int| is_core(line@, a, b) && res@ == #[trigger] line@.subrange(a, b),
{
    let n: usize = line.len();
    let mut a: usize = 0;
    assert(line@.skip(0) =~= line@);
    while a < n && is_space_byte(line[a])
        invariant
            n == line@.len(),
            a <= n,
            trim_start(line@) == trim_start(line@.skip(a as int)),
            forall|j: int| 0 <= j < a ==> is_space(#[trigger] line@[j]),
        decreases n - a,
    {
        assert(line@.skip(a as int).skip(1) =~= line@.skip(a + 1));
        a += 1;
    }
    assert(trim_start(line@) == line@.skip(a as int));
    assert(line@.skip(a as int) =~= line@.subrange(a as int, n as int));
    let mut b: usize = n;
    while b > a && is_space_byte(line[b - 1])
        invariant
            n == line@.len(),
            a <= b <= n,
            trimmed(line@) == trim_end(line@.subrange(a as int, b as int)),
            forall|j: int| b <= j < n ==> is_space(#[trigger] line@[j]),
            a < n ==> !is_space(line@[a as int]),
        decreases b,
    {
        assert(line@.subrange(a as int, b as int).drop_last() =~= line@.subrange(
            a as int,
            b - 1,
        ));
        b -= 1;
    }
    assert(trimmed(line@) == line@.subrange(a as int, b as int));
    assert(is_core(line@, a as int, b as int));
    let mut res: Vec<u8> = Vec::new();
    let mut k: usize = a;
    while k < b
        invariant
            a <= k <= b <= line@.len(),
            res@ == line@.subrange(a as int, k as int),
        decreases b - k,
    {
        res.push(line[k]);
        assert(res@ =~= line@.subrange(a as int, k + 1));
        k += 1;
    }
    res
}

/// Cuts `s` at every `sep`.
pub fn split(s: &Vec<u8>, sep: u8) -> (fields: Vec<Vec<u8>>)
    ensures
        byte_seqs(&fields) == split_on(s@, sep),
        fields@.len() >= 1,
        join_with(byte_seqs(&fields), sep) == s@,
        forall|i: int, j: int|
            0 <= i < fields@.len() && 0 <= j < fields@[i]@.len() ==> (#[trigger] fields@[i]@[j])
                != sep,
{
    proof {
        lemma_split_then_join(s@, sep);
    }
    let mut fields: Vec<Vec<u8>> = Vec::new();
    let mut current: Vec<u8> = Vec::new();
    let mut start: usize = 0;
    let mut pos: usize = 0;
    assert(s@.skip(0) =~= s@);
    assert(byte_seqs(&fields) + split_on(s@, sep) =~= split_on(s@, sep));
    while pos < s.len()
        invariant
            start <= pos <= s@.len(),
            current@ == s@.subrange(start as int, pos as int),
            forall|k: int| start <= k < pos ==> s@[k] != sep,
            split_on(s@, sep) == byte_seqs(&fields) + split_on(s@.skip(start as int), sep),
        decreases s@.len() - pos,
    {
        if s[pos] == sep {
            proof {
                let u = s@.skip(start as int);
                lemma_first_field(u, sep, pos - start);
                assert(u.take(pos - start) =~= s@.subrange(start as int, pos as int));
                assert(u.skip(pos - start + 1) =~= s@.skip(pos + 1));
            }
            let ghost before = byte_seqs(&fields);
            fields.push(current);
            proof {
                assert(byte_seqs(&fields) =~= before.push(s@.subrange(start as int, pos as int)));
                assert(before.push(s@.subrange(start as int, pos as int)) + split_on(
                    s@.skip(pos + 1),
                    sep,
                ) =~= before + (seq![s@.subrange(start as int, pos as int)] + split_on(
                    s@.skip(pos + 1),
                    sep,
                )));
            }
            current = Vec::new();
            start = pos + 1;
            assert(current@ =~= s@.subrange(start as int, pos + 1));
        } else {
            current.push(s[pos]);
            assert(current@ =~= s@.subrange(start as int, pos + 1));
        }
        pos += 1;
    }
    proof {
        let u = s@.skip(start as int);
        lemma_first_field(u, sep, pos - start);
        assert(u =~= s@.subrange(start as int, pos as int));
    }
    let ghost before = byte_seqs(&fields);
    fields.push(current);
    proof {
        assert(byte_seqs(&fields) =~= before.push(s@.subrange(start as int, pos as int)));
        assert(before.push(s@.subrange(start as int, pos as int)) =~= before + seq![
            s@.subrange(start as int, pos as int),
        ]);
        assert forall|i: int, j: int|
            0 <= i < fields@.len() && 0 <= j < fields@[i]@.len() implies (#[trigger] fields@[i]@[j])
            != sep by {
            assert(byte_seqs(&fields)[i][j] == fields@[i]@[j]);
        }
    }
    fields
}

/// The fields of a line: trims it and cuts it at every tab.
pub fn fields(line: &Vec<u8>) -> (res: Vec<Vec<u8>>)
    ensures
        byte_seqs(&res) == fields_of(line@),
        res@.len() >= 1,
{
    let clean = trim(line);
    split(&clean, TAB)
}

/// The lines of a file.
pub fn lines(content: &Vec<u8>) -> (res: Vec<Vec<u8>>)
    ensures
        byte_seqs(&res) == lines_of(content@),
{
    let mut pieces = split(content, LINE_FEED);
    let ghost all = byte_seqs(&pieces);
    let last: usize = pieces.len() - 1;
    if pieces[last].len() == 0 {
        pieces.pop();
        assert(byte_seqs(&pieces) =~= all.drop_last());
    }
    pieces
}

/// Reads an unsigned decimal number that is at most `max`.
///
/// Returns `None` exactly when `s` writes no such number.
pub fn parse_decimal(s: &Vec<u8>, max: u32) -> (res: Option<u32>)
    ensures
        res.is_some() == decimal_of(s@, max as nat).is_some(),
        res matches Some(v) ==> decimal_of(s@, max as nat) == Some(v as nat),
{
    let n: usize = s.len();
    let first: usize = if n > 0 && s[0] == 43 {
        1
    } else {
        0
    };
    let ghost d = digits_part(s@);
    assert(d =~= s@.skip(first as int));
    if first == n {
        return None;
    }
    let mut value: u64 = 0;
    let mut k: usize = first;
    while k < n
        invariant
            n == s@.len(),
            first <= k <= n,
            d == s@.skip(first as int),
            d == digits_part(s@),
            all_digits(d.take(k - first)),
            value == digits_value(d.take(k - first)),
            value <= max,
        decreases n - k,
    {
        let b: u8 = s[k];
        assert(b == d[k - first]);
        if b < 48 || b > 57 {
            assert(!all_digits(d));
            return None;
        }
        let next: u64 = value * 10 + (b - 48) as u64;
        proof {
            let longer = d.take(k - first + 1);
            assert(longer.drop_last() =~= d.take(k - first));
            assert(longer.last() == b);
            assert(next == digits_value(longer));
            assert forall|m: int| 0 <= m < longer.len() implies is_digit(#[trigger] longer[m]) by {
                if m < k - first {
                    assert(d.take(k - first)[m] == longer[m]);
                }
            }
        }
        if next > max as u64 {
            proof {
                lemma_digits_grow(d, k - first + 1);
            }
            return None;
        }
        value = next;
        k += 1;
    }
    assert(d.take(k - first) =~= d);
    Some(value as u32)
}

/// Copies a byte string.
pub fn copy_bytes(s: &Vec<u8>) -> (res: Vec<u8>)
    ensures
        res@ == s@,
{
    let mut res: Vec<u8> = Vec::new();
    let mut k: usize = 0;
    while k < s.len()
        invariant
            k <= s@.len(),
            res@ == s@.take(k as int),
        decreases s@.len() - k,
    {
        res.push(s[k]);
        assert(res@ =~= s@.take(k + 1));
        k += 1;
    }
    assert(s@.take(k as int) =~= s@);
    res
}

} // verus!
