use vstd::prelude::*;
use crate::text::{chars_of, string_of};
use crate::trie::{Trie, with_freq, with_prefixes, with_reading, with_weighted_reading};
use crate::utils::{char_is_whitespace, whitespace};
use crate::yale::views;

verus! {

// ---- fields ----

/// The pieces of `s` between occurrences of `sep`: one more than there are
/// separators, empty pieces included.
pub open spec fn split_on(s: Seq<char>, sep: char) -> Seq<Seq<char>>
    decreases s.len(),
{
    if s.len() == 0 {
        seq![seq![]]
    } else {
        let prev = split_on(s.drop_last(), sep);
        if s.last() == sep {
            prev.push(seq![])
        } else {
            prev.update(prev.len() - 1, prev.last().push(s.last()))
        }
    }
}

proof fn lemma_split_on(s: Seq<char>, sep: char)
    ensures
        split_on(s, sep).len() >= 1,
        split_on(s, sep)[0].len() <= s.len(),
        split_on(s, sep).len() > 1 ==> split_on(s, sep)[0].len() < s.len(),
    decreases s.len(),
{
    if s.len() > 0 {
        lemma_split_on(s.drop_last(), sep);
    }
}

/// The tab-separated fields of a line.
fn fields(line: &Vec<char>) -> (r: Vec<Vec<char>>)
    ensures
        views(r@) == split_on(line@, '\t'),
{
    split_chars(line, '\t')
}

/// The pieces of `line` between occurrences of `sep`.
fn split_chars(line: &Vec<char>, sep: char) -> (r: Vec<Vec<char>>)
    ensures
        views(r@) == split_on(line@, sep),
{
    let mut out: Vec<Vec<char>> = Vec::new();
    let mut cur: Vec<char> = Vec::new();
    let mut k: usize = 0;
    while k < line.len()
        invariant
            k <= line@.len(),
            views(out@).push(cur@) == split_on(line@.subrange(0, k as int), sep),
        decreases line@.len() - k,
    {
        let c = line[k];
        let ghost pre = line@.subrange(0, k as int);
        assert(line@.subrange(0, k + 1).drop_last() =~= pre);
        proof {
            lemma_split_on(pre, sep);
        }
        if c == sep {
            let w = cur;
            out.push(w);
            cur = Vec::new();
            assert(views(out@).push(cur@) =~= split_on(pre, sep).push(seq![]));
        } else {
            cur.push(c);
            assert(views(out@).push(cur@) =~= split_on(pre, sep).update(
                split_on(pre, sep).len() - 1,
                split_on(pre, sep).last().push(c),
            ));
        }
        k = k + 1;
    }
    assert(line@.subrange(0, k as int) =~= line@);
    out.push(cur);
    out
}

// ---- numbers ----

pub open spec fn is_digit(c: char) -> bool {
    '0' <= c <= '9'
}

/// The value of a string of decimal digits.
pub open spec fn digits_value(s: Seq<char>) -> int
    decreases s.len(),
{
    if s.len() == 0 {
        0
    } else {
        digits_value(s.drop_last()) * 10 + (s.last() as int - '0' as int)
    }
}

pub open spec fn all_digits(s: Seq<char>) -> bool {
    forall|k: int| 0 <= k < s.len() ==> is_digit(#[trigger] s[k])
}

/// An optional sign (`-` only where `signed`) and one or more digits,
/// read as a number.
pub open spec fn signed_value(s: Seq<char>, signed: bool) -> Option<int> {
    let neg = s.len() > 0 && s[0] == '-' && signed;
    let body = if s.len() > 0 && (s[0] == '+' || (s[0] == '-' && signed)) {
        s.subrange(1, s.len() as int)
    } else {
        s
    };
    if body.len() > 0 && all_digits(body) {
        Some(if neg { -digits_value(body) } else { digits_value(body) })
    } else {
        None
    }
}

/// What `str::parse::<u32>` gives.
pub open spec fn parse_u32(s: Seq<char>) -> Option<int> {
    match signed_value(s, false) {
        Some(v) => if v <= u32::MAX { Some(v) } else { None },
        None => None,
    }
}

/// What `str::parse::<i64>` gives.
pub open spec fn parse_i64(s: Seq<char>) -> Option<int> {
    match signed_value(s, true) {
        Some(v) => if i64::MIN <= v <= i64::MAX { Some(v) } else { None },
        None => None,
    }
}

proof fn lemma_digits_grow(s: Seq<char>, k: int)
    requires
        0 <= k <= s.len(),
        all_digits(s),
    ensures
        0 <= digits_value(s.subrange(0, k)) <= digits_value(s),
    decreases s.len() - k,
{
    if k < s.len() {
        lemma_digits_grow(s, k + 1);
        assert(s.subrange(0, k + 1).drop_last() =~= s.subrange(0, k));
        assert(is_digit(s[k]));
    } else {
        assert(s.subrange(0, k) =~= s);
        lemma_digits_nonneg(s);
    }
}

proof fn lemma_digits_nonneg(s: Seq<char>)
    requires
        all_digits(s),
    ensures
        digits_value(s) >= 0,
    decreases s.len(),
{
    if s.len() > 0 {
        assert(all_digits(s.drop_last()));
        assert(is_digit(s[s.len() - 1]));
        lemma_digits_nonneg(s.drop_last());
    }
}

/// The number that `s` spells, with an optional sign, if it is at most
/// `limit` in magnitude: a negative value only where `signed`.
fn read_number(s: &Vec<char>, signed: bool, limit: u64) -> (r: Option<(bool, u64)>)
    ensures
        match r {
            Some((neg, v)) => signed_value(s@, signed) == Some(if neg { -(v as int) } else { v as int })
                && v <= limit && (neg ==> signed),
            None => signed_value(s@, signed) is None || (signed_value(s@, signed) is Some && {
                let v = signed_value(s@, signed)->Some_0;
                v > limit || -v > limit
            }),
        },
{
    let mut start: usize = 0;
    let mut neg = false;
    if s.len() > 0 && (s[0] == '+' || (s[0] == '-' && signed)) {
        start = 1;
        neg = s[0] == '-';
    }
    let ghost body = s@.subrange(start as int, s@.len() as int);
    let ghost has_sign = s@.len() > 0 && (s@[0] == '+' || (s@[0] == '-' && signed));
    assert(has_sign == (start == 1));
    assert(start == 0 ==> body =~= s@);
    assert(body == if has_sign { s@.subrange(1, s@.len() as int) } else { s@ });
    if start == s.len() {
        return None;
    }
    let mut acc: u128 = 0;
    let mut k: usize = start;
    while k < s.len()
        invariant
            start <= k <= s@.len(),
            body == s@.subrange(start as int, s@.len() as int),
            body == if has_sign { s@.subrange(1, s@.len() as int) } else { s@ },
            has_sign == (s@.len() > 0 && (s@[0] == '+' || (s@[0] == '-' && signed))),
            neg == (has_sign && s@[0] == '-'),
            all_digits(s@.subrange(start as int, k as int)),
            acc as int == digits_value(s@.subrange(start as int, k as int)),
            acc <= limit,
        decreases s@.len() - k,
    {
        let c = s[k];
        if !('0' <= c && c <= '9') {
            assert(!is_digit(body[k - start]));
            assert(!all_digits(body));
            assert(signed_value(s@, signed) is None);
            return None;
        }
        let d: u128 = (c as u32 - '0' as u32) as u128;
        let ghost pre = s@.subrange(start as int, k as int);
        let ghost nxt = s@.subrange(start as int, k + 1);
        assert(nxt.drop_last() =~= pre);
        assert(all_digits(nxt));
        let next: u128 = acc * 10 + d;
        if next > limit as u128 {
            proof {
                if all_digits(body) {
                    lemma_digits_grow(body, k + 1 - start);
                    assert(body.subrange(0, k + 1 - start) =~= nxt);
                }
            }
            return None;
        }
        acc = next;
        k = k + 1;
    }
    assert(s@.subrange(start as int, k as int) =~= body);
    Some((neg, acc as u64))
}


// ---- weights ----

pub open spec fn trim_start(s: Seq<char>) -> Seq<char>
    decreases s.len(),
{
    if s.len() > 0 && whitespace(s[0]) {
        trim_start(s.subrange(1, s.len() as int))
    } else {
        s
    }
}

pub open spec fn trim_end(s: Seq<char>) -> Seq<char>
    decreases s.len(),
{
    if s.len() > 0 && whitespace(s.last()) {
        trim_end(s.drop_last())
    } else {
        s
    }
}

/// `s` without its leading and trailing whitespace.
pub open spec fn trim(s: Seq<char>) -> Seq<char> {
    trim_end(trim_start(s))
}

/// `s` with every `%` taken out.
pub open spec fn without_percent(s: Seq<char>) -> Seq<char>
    decreases s.len(),
{
    if s.len() == 0 {
        s
    } else if s.last() == '%' {
        without_percent(s.drop_last())
    } else {
        without_percent(s.drop_last()).push(s.last())
    }
}

/// The weight a record gives: 100 when the field is missing, the number
/// it spells once `%` and surrounding whitespace are removed, else 0.
pub open spec fn weight_of(field: Option<Seq<char>>) -> u32 {
    match field {
        None => 100,
        Some(f) => match parse_u32(trim(without_percent(f))) {
            Some(v) => v as u32,
            None => 0,
        },
    }
}

fn copy_range(s: &Vec<char>, a: usize, b: usize) -> (r: Vec<char>)
    requires
        a <= b <= s@.len(),
    ensures
        r@ == s@.subrange(a as int, b as int),
{
    let mut r: Vec<char> = Vec::new();
    let mut k: usize = a;
    while k < b
        invariant
            a <= k <= b <= s@.len(),
            r@ == s@.subrange(a as int, k as int),
        decreases b - k,
    {
        r.push(s[k]);
        k = k + 1;
        assert(r@ =~= s@.subrange(a as int, k as int));
    }
    r
}

fn trimmed(s: &Vec<char>) -> (r: Vec<char>)
    ensures
        r@ == trim(s@),
{
    let n = s.len();
    let mut a: usize = 0;
    assert(s@.subrange(0, n as int) =~= s@);
    while a < n && char_is_whitespace(s[a])
        invariant
            a <= n == s@.len(),
            trim_start(s@) == trim_start(s@.subrange(a as int, n as int)),
        decreases n - a,
    {
        assert(s@.subrange(a as int, n as int).subrange(1, (n - a) as int) =~= s@.subrange(a + 1, n as int));
        a = a + 1;
    }
    let mut b: usize = n;
    while b > a && char_is_whitespace(s[b - 1])
        invariant
            a <= b <= n == s@.len(),
            trim_end(s@.subrange(a as int, n as int)) == trim_end(s@.subrange(a as int, b as int)),
        decreases b - a,
    {
        assert(s@.subrange(a as int, b as int).drop_last() =~= s@.subrange(a as int, b - 1));
        b = b - 1;
    }
    copy_range(s, a, b)
}

fn strip_percent(s: &Vec<char>) -> (r: Vec<char>)
    ensures
        r@ == without_percent(s@),
{
    let mut r: Vec<char> = Vec::new();
    let mut k: usize = 0;
    while k < s.len()
        invariant
            k <= s@.len(),
            r@ == without_percent(s@.subrange(0, k as int)),
        decreases s@.len() - k,
    {
        assert(s@.subrange(0, k + 1).drop_last() =~= s@.subrange(0, k as int));
        if s[k] != '%' {
            r.push(s[k]);
        }
        k = k + 1;
    }
    assert(s@.subrange(0, k as int) =~= s@);
    r
}

/// The weight of a character record's weight field, such as `5%`.
fn parse_weight(field: &Vec<char>) -> (r: u32)
    ensures
        r == weight_of(Some(field@)),
{
    let bare = trimmed(&strip_percent(field));
    proof {
        let b = bare@;
        let body = if b.len() > 0 && b[0] == '+' { b.subrange(1, b.len() as int) } else { b };
        if body.len() > 0 && all_digits(body) {
            lemma_digits_nonneg(body);
        }
    }
    match read_number(&bare, false, 0xFFFF_FFFF) {
        Some((_, v)) => v as u32,
        None => 0,
    }
}

// ---- records ----

/// The dictionary after one line of single-character records: character,
/// reading and an optional weight, separated by tabs. Lines with fewer than
/// two fields or an empty first field change nothing.
pub open spec fn after_char_line(m: crate::segment::Dict, line: Seq<char>) -> crate::segment::Dict {
    let f = split_on(line, '\t');
    if f.len() >= 2 && f[0].len() > 0 {
        let w = weight_of(if f.len() > 2 { Some(f[2]) } else { None });
        with_weighted_reading(with_prefixes(m, seq![f[0][0]]), f[0][0], f[1], w)
    } else {
        m
    }
}

/// The text before the first tab and the text after it, if there is a tab.
pub open spec fn split_once_tab(line: Seq<char>) -> Option<(Seq<char>, Seq<char>)> {
    let f = split_on(line, '\t');
    if f.len() > 1 {
        Some((f[0], line.subrange(f[0].len() as int + 1, line.len() as int)))
    } else {
        None
    }
}

/// The dictionary after one line of word records: word, a tab, reading.
pub open spec fn after_word_line(m: crate::segment::Dict, line: Seq<char>) -> crate::segment::Dict {
    match split_once_tab(line) {
        Some((w, r)) => if w.len() >= 2 {
            with_reading(with_prefixes(m, w), w, r)
        } else {
            m
        },
        None => m,
    }
}

/// The dictionary after one line of lettered records: key, a tab, reading.
pub open spec fn after_lettered_line(m: crate::segment::Dict, line: Seq<char>) -> crate::segment::Dict {
    match split_once_tab(line) {
        Some((w, r)) => if w.len() > 0 {
            with_reading(with_prefixes(m, w), w, r)
        } else {
            m
        },
        None => m,
    }
}

/// The dictionary after one line of frequency records: word, a tab, an
/// integer. Lines with fewer fields or no integer change nothing.
pub open spec fn after_freq_line(m: crate::segment::Dict, line: Seq<char>) -> crate::segment::Dict {
    let f = split_on(line, '\t');
    if f.len() >= 2 {
        match parse_i64(f[1]) {
            Some(v) => with_freq(m, f[0], v),
            None => m,
        }
    } else {
        m
    }
}

/// Loads one line of single-character records.
pub fn load_char_line(trie: &mut Trie, line: &str)
    requires
        old(trie).wf(),
    ensures
        final(trie).wf(),
        final(trie)@ == after_char_line(old(trie)@, line@),
{
    let chars = chars_of(line);
    let parts = fields(&chars);
    proof {
        lemma_split_on(line@, '\t');
    }
    if parts.len() >= 2 && parts[0].len() > 0 {
        let ch = parts[0][0];
        let weight: u32 = if parts.len() > 2 {
            parse_weight(&parts[2])
        } else {
            100
        };
        let reading = string_of(&parts[1], 0, parts[1].len());
        assert(parts@[1]@.subrange(0, parts@[1]@.len() as int) =~= parts@[1]@);
        trie.insert_char(ch, reading.as_str(), weight);
    }
}

/// Loads one line of word records.
pub fn load_word_line(trie: &mut Trie, line: &str)
    requires
        old(trie).wf(),
    ensures
        final(trie).wf(),
        final(trie)@ == after_word_line(old(trie)@, line@),
{
    let chars = chars_of(line);
    let parts = fields(&chars);
    proof {
        lemma_split_on(line@, '\t');
    }
    if parts.len() > 1 {
        assert(views(parts@)[0] == parts@[0]@);
        let n = chars.len();
        assert(parts@[0]@.len() < n);
        let left = string_of(&parts[0], 0, parts[0].len());
        let right = string_of(&chars, parts[0].len() + 1, n);
        assert(parts@[0]@.subrange(0, parts@[0]@.len() as int) =~= parts@[0]@);
        trie.insert_word(left.as_str(), right.as_str());
    }
}

/// Loads one line of lettered records.
pub fn load_lettered_line(trie: &mut Trie, line: &str)
    requires
        old(trie).wf(),
    ensures
        final(trie).wf(),
        final(trie)@ == after_lettered_line(old(trie)@, line@),
{
    let chars = chars_of(line);
    let parts = fields(&chars);
    proof {
        lemma_split_on(line@, '\t');
    }
    if parts.len() > 1 {
        assert(views(parts@)[0] == parts@[0]@);
        let n = chars.len();
        assert(parts@[0]@.len() < n);
        let left = string_of(&parts[0], 0, parts[0].len());
        let right = string_of(&chars, parts[0].len() + 1, n);
        assert(parts@[0]@.subrange(0, parts@[0]@.len() as int) =~= parts@[0]@);
        trie.insert_lettered(left.as_str(), right.as_str());
    }
}

/// Loads one line of frequency records.
pub fn load_freq_line(trie: &mut Trie, line: &str)
    requires
        old(trie).wf(),
    ensures
        final(trie).wf(),
        final(trie)@ == after_freq_line(old(trie)@, line@),
{
    let chars = chars_of(line);
    let parts = fields(&chars);
    if parts.len() >= 2 {
        match read_number(&parts[1], true, 0x8000_0000_0000_0000) {
            Some((neg, v)) => {
                let freq: i64 = if neg {
                    if v == 0x8000_0000_0000_0000 {
                        i64::MIN
                    } else {
                        -(v as i64)
                    }
                } else if v <= 0x7FFF_FFFF_FFFF_FFFF {
                    v as i64
                } else {
                    return;
                };
                let word = string_of(&parts[0], 0, parts[0].len());
                assert(parts@[0]@.subrange(0, parts@[0]@.len() as int) =~= parts@[0]@);
                trie.insert_freq(word.as_str(), freq);
            },
            None => {},
        }
    }
}


// ---- whole files ----

/// The four kinds of record files a dictionary is built from.
#[derive(Clone, Copy, PartialEq, Eq, Debug)]
pub enum RecordKind {
    Chars,
    Words,
    Freqs,
    Lettered,
}

/// The lines of `s`: split at `\n`, a `\r` before the `\n` dropped, and no
/// empty line after a final line ending.
pub open spec fn lines(s: Seq<char>) -> Seq<Seq<char>> {
    let f = split_on(s, '\n');
    let g = if f.last().len() == 0 {
        f.drop_last()
    } else {
        f
    };
    Seq::new(
        g.len(),
        |k: int|
            if k < f.len() - 1 && g[k].len() > 0 && g[k].last() == '\r' {
                g[k].drop_last()
            } else {
                g[k]
            },
    )
}

pub open spec fn after_line(m: crate::segment::Dict, line: Seq<char>, kind: RecordKind) -> crate::segment::Dict {
    match kind {
        RecordKind::Chars => after_char_line(m, line),
        RecordKind::Words => after_word_line(m, line),
        RecordKind::Freqs => after_freq_line(m, line),
        RecordKind::Lettered => after_lettered_line(m, line),
    }
}

/// The dictionary after the lines `ls`, in order.
pub open spec fn after_lines(m: crate::segment::Dict, ls: Seq<Seq<char>>, kind: RecordKind) -> crate::segment::Dict
    decreases ls.len(),
{
    if ls.len() == 0 {
        m
    } else {
        after_line(after_lines(m, ls.drop_last(), kind), ls.last(), kind)
    }
}

/// Loads every line of a record file of the given kind; malformed lines
/// are skipped.
pub fn load_records(trie: &mut Trie, data: &str, kind: RecordKind)
    requires
        old(trie).wf(),
    ensures
        final(trie).wf(),
        final(trie)@ == after_lines(old(trie)@, lines(data@), kind),
{
    let chars = chars_of(data);
    let pieces = split_chars(&chars, '\n');
    proof {
        lemma_split_on(data@, '\n');
    }
    let ghost f = split_on(data@, '\n');
    let ghost ls = lines(data@);
    let total = pieces.len();
    let count = if pieces[total - 1].len() == 0 {
        total - 1
    } else {
        total
    };
    assert(views(pieces@)[total - 1] == pieces@[total - 1]@);
    assert(count == ls.len());
    let ghost m0 = trie@;
    let mut k: usize = 0;
    while k < count
        invariant
            trie.wf(),
            count == ls.len(),
            ls == lines(data@),
            f == split_on(data@, '\n'),
            views(pieces@) == f,
            total == pieces@.len() == f.len(),
            count <= total,
            k <= count,
            trie@ == after_lines(m0, ls.subrange(0, k as int), kind),
        decreases count - k,
    {
        let piece = &pieces[k];
        let plen = piece.len();
        let cut = if k + 1 < total && plen > 0 && piece[plen - 1] == '\r' {
            plen - 1
        } else {
            plen
        };
        assert(views(pieces@)[k as int] == pieces@[k as int]@);
        let line = string_of(piece, 0, cut);
        proof {
            assert(ls[k as int] =~= line@);
            assert(ls.subrange(0, k + 1).drop_last() =~= ls.subrange(0, k as int));
        }
        match kind {
            RecordKind::Chars => load_char_line(trie, line.as_str()),
            RecordKind::Words => load_word_line(trie, line.as_str()),
            RecordKind::Freqs => load_freq_line(trie, line.as_str()),
            RecordKind::Lettered => load_lettered_line(trie, line.as_str()),
        }
        k = k + 1;
    }
    assert(ls.subrange(0, k as int) =~= ls);
}

/// Builds the dictionary from its four record files: characters, words,
/// frequencies and lettered entries, in that order.
pub fn build_trie(char_data: &str, word_data: &str, freq_data: &str, lettered_data: &str) -> (r: Trie)
    ensures
        r.wf(),
        r@ == after_lines(
            after_lines(
                after_lines(
                    after_lines(
                        map![Seq::<char>::empty() => crate::trie::empty_model()],
                        lines(char_data@),
                        RecordKind::Chars,
                    ),
                    lines(word_data@),
                    RecordKind::Words,
                ),
                lines(freq_data@),
                RecordKind::Freqs,
            ),
            lines(lettered_data@),
            RecordKind::Lettered,
        ),
{
    let mut trie = Trie::new();
    load_records(&mut trie, char_data, RecordKind::Chars);
    load_records(&mut trie, word_data, RecordKind::Words);
    load_records(&mut trie, freq_data, RecordKind::Freqs);
    load_records(&mut trie, lettered_data, RecordKind::Lettered);
    trie
}

} // verus!
