use unicode_normalization::UnicodeNormalization;
use vstd::prelude::*;
use crate::text::{chars_of, string_of};
use crate::trie::strings_view;
use crate::utils::{char_is_whitespace, whitespace};

verus! {

/// The canonical composition (Unicode NFC) of a string.
pub uninterp spec fn nfc_of(s: Seq<char>) -> Seq<char>;

/// Relies on `UnicodeNormalization::nfc` of unicode-normalization: the
/// composed form depends on the characters alone.
#[verifier::external_body]
fn nfc(s: &str) -> (r: String)
    ensures
        r@ == nfc_of(s@),
{
    s.nfc().collect()
}

// ---- the text of a reading, as syllables ----

/// The maximal runs of non-whitespace characters of `s`, in order.
pub open spec fn words(s: Seq<char>) -> Seq<Seq<char>>
    decreases s.len(),
{
    if s.len() == 0 {
        seq![]
    } else {
        let prev = words(s.drop_last());
        let c = s.last();
        if whitespace(c) {
            prev
        } else if s.len() >= 2 && !whitespace(s[s.len() - 2]) {
            prev.update(prev.len() - 1, prev.last().push(c))
        } else {
            prev.push(seq![c])
        }
    }
}

pub open spec fn views(v: Seq<Vec<char>>) -> Seq<Seq<char>> {
    v.map_values(|w: Vec<char>| w@)
}

/// The syllables of `s`, split at whitespace.
fn split_words(s: &Vec<char>) -> (r: Vec<Vec<char>>)
    ensures
        views(r@) == words(s@),
{
    let mut out: Vec<Vec<char>> = Vec::new();
    let mut cur: Vec<char> = Vec::new();
    let mut k: usize = 0;
    while k < s.len()
        invariant
            k <= s@.len(),
            (cur@.len() > 0) == (k > 0 && !whitespace(s@[k - 1])),
            cur@.len() > 0 ==> views(out@).push(cur@) == words(s@.subrange(0, k as int)),
            cur@.len() == 0 ==> views(out@) == words(s@.subrange(0, k as int)),
        decreases s@.len() - k,
    {
        let c = s[k];
        let ghost pre = s@.subrange(0, k as int);
        let ghost nxt = s@.subrange(0, k + 1);
        assert(nxt.drop_last() =~= pre);
        if char_is_whitespace(c) {
            if cur.len() > 0 {
                let w = cur;
                out.push(w);
                cur = Vec::new();
                assert(views(out@) =~= words(pre));
            }
        } else {
            if cur.len() > 0 {
                proof {
                    assert(nxt[nxt.len() - 2] == s@[k - 1]);
                }
                cur.push(c);
                proof {
                    assert(views(out@).push(cur@) =~= words(pre).update(words(pre).len() - 1, words(pre).last().push(c)));
                }
            } else {
                cur.push(c);
                proof {
                    if k > 0 {
                        assert(nxt[nxt.len() - 2] == s@[k - 1]);
                    }
                    assert(cur@ =~= seq![c]);
                }
            }
        }
        k = k + 1;
    }
    assert(s@.subrange(0, k as int) =~= s@);
    if cur.len() > 0 {
        out.push(cur);
        assert(views(out@) =~= words(s@));
    }
    out
}

// ---- rewriting ----

pub open spec fn starts_with(s: Seq<char>, p: Seq<char>) -> bool {
    p.len() <= s.len() && s.subrange(0, p.len() as int) == p
}

/// `s` with each occurrence of `from` replaced by `to`, scanning left to
/// right without overlaps.
pub open spec fn replace_all(s: Seq<char>, from: Seq<char>, to: Seq<char>) -> Seq<char>
    decreases s.len(),
{
    if s.len() == 0 || from.len() == 0 {
        s
    } else if starts_with(s, from) {
        to + replace_all(s.subrange(from.len() as int, s.len() as int), from, to)
    } else {
        seq![s[0]] + replace_all(s.subrange(1, s.len() as int), from, to)
    }
}

/// Whether `s[i..]` starts with `p`.
fn matches_at(s: &Vec<char>, i: usize, p: &Vec<char>) -> (r: bool)
    requires
        i <= s@.len(),
    ensures
        r == starts_with(s@.subrange(i as int, s@.len() as int), p@),
{
    if p.len() > s.len() - i {
        return false;
    }
    let mut k: usize = 0;
    while k < p.len()
        invariant
            k <= p@.len(),
            i + p@.len() <= s@.len() <= usize::MAX,
            forall|q: int| 0 <= q < k ==> s@[i + q] == p@[q],
        decreases p@.len() - k,
    {
        assert(i + k < s@.len());
        if s[i + k] != p[k] {
            assert(s@.subrange(i as int, s@.len() as int).subrange(0, p@.len() as int)[k as int] != p@[k as int]);
            return false;
        }
        k = k + 1;
    }
    assert(s@.subrange(i as int, s@.len() as int).subrange(0, p@.len() as int) =~= p@);
    true
}

fn append(out: &mut Vec<char>, more: &Vec<char>)
    ensures
        final(out)@ == old(out)@ + more@,
{
    let mut k: usize = 0;
    while k < more.len()
        invariant
            k <= more@.len(),
            out@ == old(out)@ + more@.subrange(0, k as int),
        decreases more@.len() - k,
    {
        out.push(more[k]);
        k = k + 1;
        assert(out@ =~= old(out)@ + more@.subrange(0, k as int));
    }
    assert(more@.subrange(0, k as int) =~= more@);
}

fn replace(s: &Vec<char>, from: &Vec<char>, to: &Vec<char>) -> (r: Vec<char>)
    requires
        from@.len() > 0,
    ensures
        r@ == replace_all(s@, from@, to@),
{
    let mut out: Vec<char> = Vec::new();
    let mut i: usize = 0;
    assert(s@.subrange(0, s@.len() as int) =~= s@);
    while i < s.len()
        invariant
            i <= s@.len(),
            from@.len() > 0,
            out@ + replace_all(s@.subrange(i as int, s@.len() as int), from@, to@) == replace_all(s@, from@, to@),
        decreases s@.len() - i,
    {
        let ghost rest = s@.subrange(i as int, s@.len() as int);
        if matches_at(s, i, from) {
            append(&mut out, to);
            assert(rest.subrange(from@.len() as int, rest.len() as int) =~= s@.subrange(i + from@.len(), s@.len() as int));
            i = i + from.len();
        } else {
            out.push(s[i]);
            assert(rest.subrange(1, rest.len() as int) =~= s@.subrange(i + 1, s@.len() as int));
            i = i + 1;
        }
    }
    assert(s@.subrange(i as int, s@.len() as int) =~= Seq::<char>::empty());
    out
}

// ---- one syllable ----

/// Initials written alike in both romanisations.
pub open spec fn kept_initial(c: char) -> bool {
    c == 'b' || c == 'p' || c == 'm' || c == 'f' || c == 'd' || c == 't' || c == 'n' || c == 'l'
        || c == 'g' || c == 'k' || c == 'h' || c == 's' || c == 'w'
}

/// The Yale initial of a toneless syllable and the rest of it, the final.
pub open spec fn initial_split(b: Seq<char>) -> (Seq<char>, Seq<char>) {
    if starts_with(b, seq!['g', 'w']) {
        (seq!['g', 'w'], b.subrange(2, b.len() as int))
    } else if starts_with(b, seq!['k', 'w']) {
        (seq!['k', 'w'], b.subrange(2, b.len() as int))
    } else if starts_with(b, seq!['n', 'g']) {
        (seq!['n', 'g'], b.subrange(2, b.len() as int))
    } else if starts_with(b, seq!['z']) {
        (seq!['j'], b.subrange(1, b.len() as int))
    } else if starts_with(b, seq!['c']) {
        (seq!['c', 'h'], b.subrange(1, b.len() as int))
    } else if starts_with(b, seq!['j']) {
        (seq!['y'], b.subrange(1, b.len() as int))
    } else if b.len() > 0 && kept_initial(b[0]) {
        (seq![b[0]], b.subrange(1, b.len() as int))
    } else {
        (seq![], b)
    }
}

/// The Yale spelling of a Jyutping final: eoi, oeng, oek, oe and eo
/// rewritten, in that order.
pub open spec fn final_rewrite(f: Seq<char>) -> Seq<char> {
    let f1 = replace_all(f, seq!['e', 'o', 'i'], seq!['e', 'u', 'i']);
    let f2 = replace_all(f1, seq!['o', 'e', 'n', 'g'], seq!['e', 'u', 'n', 'g']);
    let f3 = replace_all(f2, seq!['o', 'e', 'k'], seq!['e', 'u', 'k']);
    let f4 = replace_all(f3, seq!['o', 'e'], seq!['e', 'u']);
    replace_all(f4, seq!['e', 'o'], seq!['e', 'u'])
}

/// A bare `aa` final is written `a`; every other final stays.
pub open spec fn short_aa(f: Seq<char>) -> Seq<char> {
    if f == seq!['a', 'a'] {
        seq!['a']
    } else {
        f
    }
}

/// A final as nucleus and coda, the coda being one of ng, p, t, k, m, n.
pub open spec fn nucleus_coda(f: Seq<char>) -> (Seq<char>, Seq<char>) {
    if f.len() >= 2 && f[f.len() - 2] == 'n' && f.last() == 'g' {
        (f.subrange(0, f.len() - 2), seq!['n', 'g'])
    } else if f.len() >= 1 && (f.last() == 'p' || f.last() == 't' || f.last() == 'k'
        || f.last() == 'm' || f.last() == 'n') {
        (f.drop_last(), seq![f.last()])
    } else {
        (f, seq![])
    }
}

/// The combining mark of a tone digit, if it has one.
pub open spec fn tone_mark(t: char) -> Option<char> {
    if t == '1' {
        Some('\u{0304}')
    } else if t == '2' || t == '5' {
        Some('\u{0301}')
    } else if t == '4' {
        Some('\u{0300}')
    } else {
        None
    }
}

pub open spec fn vowel(c: char) -> bool {
    c == 'a' || c == 'e' || c == 'i' || c == 'o' || c == 'u'
}

/// `n` with the mark `k`, if any, after its first vowel.
pub open spec fn mark_first_vowel(n: Seq<char>, k: Option<char>) -> Seq<char>
    decreases n.len(),
{
    if n.len() == 0 {
        n
    } else if vowel(n[0]) {
        match k {
            Some(m) => seq![n[0], m] + n.subrange(1, n.len() as int),
            None => n,
        }
    } else {
        seq![n[0]] + mark_first_vowel(n.subrange(1, n.len() as int), k)
    }
}

/// A syllable in diacritic form: the mark on the first vowel of the
/// nucleus, and an `h` after the nucleus for tones 4 and above.
pub open spec fn with_diacritic(initial: Seq<char>, f: Seq<char>, tone: char) -> Seq<char> {
    let (n, coda) = nucleus_coda(f);
    let h = if tone >= '4' {
        seq!['h']
    } else {
        seq![]
    };
    initial + mark_first_vowel(n, tone_mark(tone)) + h + coda
}

/// The Yale form of one Jyutping syllable; none without a trailing digit.
pub open spec fn syllable_yale(s: Seq<char>, diacritics: bool) -> Option<Seq<char>> {
    if s.len() > 0 && '0' <= s.last() <= '9' {
        let tone = s.last();
        let (initial, rest) = initial_split(s.drop_last());
        let f = short_aa(final_rewrite(rest));
        if diacritics {
            Some(with_diacritic(initial, f, tone))
        } else {
            Some(initial + f + seq![tone])
        }
    } else {
        None
    }
}

/// The converted syllables of `ws`, in order, the invalid ones left out.
pub open spec fn convert_all(ws: Seq<Seq<char>>, diacritics: bool) -> Seq<Seq<char>>
    decreases ws.len(),
{
    if ws.len() == 0 {
        seq![]
    } else {
        let prev = convert_all(ws.drop_last(), diacritics);
        match syllable_yale(ws.last(), diacritics) {
            Some(y) => prev.push(y),
            None => prev,
        }
    }
}

/// `ws` joined by single spaces.
pub open spec fn spaced(ws: Seq<Seq<char>>) -> Seq<char>
    decreases ws.len(),
{
    if ws.len() == 0 {
        seq![]
    } else if ws.len() == 1 {
        ws[0]
    } else {
        spaced(ws.drop_last()) + seq![' '] + ws.last()
    }
}

/// The Yale form of a Jyutping reading, syllables joined by spaces and the
/// whole composed; none when no syllable converts.
pub open spec fn reading_yale(s: Seq<char>, diacritics: bool) -> Option<Seq<char>> {
    let conv = convert_all(words(s), diacritics);
    if conv.len() == 0 {
        None
    } else {
        Some(nfc_of(spaced(conv)))
    }
}

/// The diacritic form of each valid syllable of a reading, each composed;
/// none when no syllable converts.
pub open spec fn reading_yale_syllables(s: Seq<char>) -> Option<Seq<Seq<char>>> {
    let conv = convert_all(words(s), true);
    if conv.len() == 0 {
        None
    } else {
        Some(conv.map_values(|y: Seq<char>| nfc_of(y)))
    }
}


// ---- conversion ----

/// Splits the trailing tone digit off a syllable.
fn split_tone(s: &Vec<char>) -> (r: Option<(Vec<char>, char)>)
    ensures
        match r {
            Some((b, t)) => s@.len() > 0 && '0' <= s@.last() <= '9' && b@ == s@.drop_last() && t
                == s@.last(),
            None => !(s@.len() > 0 && '0' <= s@.last() <= '9'),
        },
{
    if s.len() == 0 {
        return None;
    }
    let last = s[s.len() - 1];
    if '0' <= last && last <= '9' {
        let mut body: Vec<char> = Vec::new();
        let mut k: usize = 0;
        while k < s.len() - 1
            invariant
                s@.len() > 0,
                k + 1 <= s@.len(),
                body@ == s@.subrange(0, k as int),
            decreases s@.len() - k,
        {
            body.push(s[k]);
            k = k + 1;
            assert(body@ =~= s@.subrange(0, k as int));
        }
        assert(body@ =~= s@.drop_last());
        Some((body, last))
    } else {
        None
    }
}

fn tail(s: &Vec<char>, from: usize) -> (r: Vec<char>)
    requires
        from <= s@.len(),
    ensures
        r@ == s@.subrange(from as int, s@.len() as int),
{
    let mut r: Vec<char> = Vec::new();
    let mut k: usize = from;
    while k < s.len()
        invariant
            from <= k <= s@.len(),
            r@ == s@.subrange(from as int, k as int),
        decreases s@.len() - k,
    {
        r.push(s[k]);
        k = k + 1;
        assert(r@ =~= s@.subrange(from as int, k as int));
    }
    r
}

/// The Yale initial of a toneless syllable, and the final that follows it.
/// Longer initials are tried first, so gw, kw and ng are kept whole.
fn convert_initial(body: &Vec<char>) -> (r: (Vec<char>, Vec<char>))
    ensures
        (r.0@, r.1@) == initial_split(body@),
{
    let gw = vec!['g', 'w'];
    let kw = vec!['k', 'w'];
    let ng = vec!['n', 'g'];
    let z = vec!['z'];
    let c = vec!['c'];
    let j = vec!['j'];
    assert(gw@ == seq!['g', 'w'] && kw@ == seq!['k', 'w'] && ng@ == seq!['n', 'g']);
    assert(z@ == seq!['z'] && c@ == seq!['c'] && j@ == seq!['j']);
    assert(body@.subrange(0, body@.len() as int) =~= body@);
    if matches_at(body, 0, &gw) {
        return (gw, tail(body, 2));
    }
    if matches_at(body, 0, &kw) {
        return (kw, tail(body, 2));
    }
    if matches_at(body, 0, &ng) {
        return (ng, tail(body, 2));
    }
    if matches_at(body, 0, &z) {
        return (vec!['j'], tail(body, 1));
    }
    if matches_at(body, 0, &c) {
        return (vec!['c', 'h'], tail(body, 1));
    }
    if matches_at(body, 0, &j) {
        return (vec!['y'], tail(body, 1));
    }
    if body.len() > 0 {
        let b = body[0];
        if b == 'b' || b == 'p' || b == 'm' || b == 'f' || b == 'd' || b == 't' || b == 'n'
            || b == 'l' || b == 'g' || b == 'k' || b == 'h' || b == 's' || b == 'w' {
            return (vec![b], tail(body, 1));
        }
    }
    (Vec::new(), tail(body, 0))
}

/// The Yale spelling of a Jyutping final.
fn convert_final(fin: &Vec<char>) -> (r: Vec<char>)
    ensures
        r@ == final_rewrite(fin@),
{
    let f1 = replace(fin, &vec!['e', 'o', 'i'], &vec!['e', 'u', 'i']);
    let f2 = replace(&f1, &vec!['o', 'e', 'n', 'g'], &vec!['e', 'u', 'n', 'g']);
    let f3 = replace(&f2, &vec!['o', 'e', 'k'], &vec!['e', 'u', 'k']);
    let f4 = replace(&f3, &vec!['o', 'e'], &vec!['e', 'u']);
    replace(&f4, &vec!['e', 'o'], &vec!['e', 'u'])
}

/// Splits a final into nucleus and coda; the coda is checked longest first,
/// so ng stays whole.
fn split_nucleus_coda(fin: &Vec<char>) -> (r: (Vec<char>, Vec<char>))
    ensures
        (r.0@, r.1@) == nucleus_coda(fin@),
{
    let n = fin.len();
    let cut: usize = if n >= 2 && fin[n - 2] == 'n' && fin[n - 1] == 'g' {
        2
    } else if n >= 1 && (fin[n - 1] == 'p' || fin[n - 1] == 't' || fin[n - 1] == 'k' || fin[n
        - 1] == 'm' || fin[n - 1] == 'n') {
        1
    } else {
        0
    };
    let mut nucleus: Vec<char> = Vec::new();
    let mut k: usize = 0;
    while k < n - cut
        invariant
            cut <= n == fin@.len(),
            k <= n - cut,
            nucleus@ == fin@.subrange(0, k as int),
        decreases n - cut - k,
    {
        nucleus.push(fin[k]);
        k = k + 1;
        assert(nucleus@ =~= fin@.subrange(0, k as int));
    }
    let coda = tail(fin, n - cut);
    proof {
        if cut == 2 {
            assert(coda@ =~= seq!['n', 'g']);
        } else if cut == 1 {
            assert(coda@ =~= seq![fin@.last()]);
            assert(nucleus@ =~= fin@.drop_last());
        } else {
            assert(nucleus@ =~= fin@);
        }
    }
    (nucleus, coda)
}

/// Writes the tone as Yale diacritics: the mark on the first vowel of the
/// nucleus (macron for tone 1, acute for 2 and 5, grave for 4, none for
/// 3 and 6), and `h` after the nucleus for the low tones 4 to 6.
fn apply_diacritic(initial: &Vec<char>, fin: &Vec<char>, tone: char) -> (r: Vec<char>)
    ensures
        r@ == with_diacritic(initial@, fin@, tone),
{
    let diacritic: Option<char> = if tone == '1' {
        Some('\u{0304}')
    } else if tone == '2' || tone == '5' {
        Some('\u{0301}')
    } else if tone == '4' {
        Some('\u{0300}')
    } else {
        None
    };
    let (nucleus, coda) = split_nucleus_coda(fin);
    let mut result: Vec<char> = Vec::new();
    append(&mut result, initial);
    let mut marked = false;
    let mut k: usize = 0;
    let ghost goal = initial@ + mark_first_vowel(nucleus@, diacritic);
    assert(nucleus@.subrange(0, nucleus@.len() as int) =~= nucleus@);
    while k < nucleus.len()
        invariant
            k <= nucleus@.len(),
            diacritic == tone_mark(tone),
            marked ==> result@ + nucleus@.subrange(k as int, nucleus@.len() as int) == goal,
            !marked ==> result@ + mark_first_vowel(nucleus@.subrange(k as int, nucleus@.len() as int), diacritic) == goal,
        decreases nucleus@.len() - k,
    {
        let ch = nucleus[k];
        let ghost rest = nucleus@.subrange(k as int, nucleus@.len() as int);
        let ghost after = nucleus@.subrange(k + 1, nucleus@.len() as int);
        assert(rest.subrange(1, rest.len() as int) =~= after);
        assert(rest =~= seq![ch] + after);
        result.push(ch);
        if !marked && (ch == 'a' || ch == 'e' || ch == 'i' || ch == 'o' || ch == 'u') {
            match diacritic {
                Some(d) => {
                    result.push(d);
                },
                None => {},
            }
            marked = true;
        }
        k = k + 1;
    }
    assert(nucleus@.subrange(k as int, nucleus@.len() as int) =~= Seq::<char>::empty());
    if tone >= '4' {
        result.push('h');
    }
    append(&mut result, &coda);
    result
}


/// The Yale form of one Jyutping syllable, none if it lacks a tone digit.
fn convert_syllable(syllable: &Vec<char>, diacritics: bool) -> (r: Option<Vec<char>>)
    ensures
        match r {
            Some(y) => syllable_yale(syllable@, diacritics) == Some(y@),
            None => syllable_yale(syllable@, diacritics) is None,
        },
{
    let (body, tone) = match split_tone(syllable) {
        Some(x) => x,
        None => {
            return None;
        },
    };
    let (initial, rest) = convert_initial(&body);
    let mut final_part = convert_final(&rest);
    if final_part.len() == 2 && final_part[0] == 'a' && final_part[1] == 'a' {
        assert(final_part@ =~= seq!['a', 'a']);
        final_part = vec!['a'];
    } else {
        assert(final_part@ != seq!['a', 'a']);
    }
    if diacritics {
        Some(apply_diacritic(&initial, &final_part, tone))
    } else {
        let mut out = initial;
        append(&mut out, &final_part);
        out.push(tone);
        Some(out)
    }
}

proof fn lemma_convert_step(ws: Seq<Seq<char>>, k: int, d: bool)
    requires
        0 <= k < ws.len(),
    ensures
        convert_all(ws.subrange(0, k + 1), d) == match syllable_yale(ws[k], d) {
            Some(y) => convert_all(ws.subrange(0, k), d).push(y),
            None => convert_all(ws.subrange(0, k), d),
        },
{
    assert(ws.subrange(0, k + 1).drop_last() =~= ws.subrange(0, k));
}

/// Converts a Jyutping reading (syllables separated by whitespace) to Yale,
/// with tone digits or with diacritics. Syllables without a tone digit are
/// left out; none when no syllable converts.
pub fn jyutping_to_yale(jyutping: &str, diacritics: bool) -> (r: Option<String>)
    ensures
        opt_string(r) == reading_yale(jyutping@, diacritics),
{
    let chars = chars_of(jyutping);
    let syllables = split_words(&chars);
    let ghost ws = views(syllables@);
    if syllables.len() == 0 {
        assert(ws.len() == 0);
        return None;
    }
    let mut joined: Vec<char> = Vec::new();
    let mut count: usize = 0;
    let mut k: usize = 0;
    while k < syllables.len()
        invariant
            k <= syllables@.len(),
            ws == views(syllables@),
            ws == words(jyutping@),
            count <= k,
            count == convert_all(ws.subrange(0, k as int), diacritics).len(),
            joined@ == spaced(convert_all(ws.subrange(0, k as int), diacritics)),
        decreases syllables@.len() - k,
    {
        proof {
            lemma_convert_step(ws, k as int, diacritics);
        }
        match convert_syllable(&syllables[k], diacritics) {
            Some(y) => {
                let ghost prev = convert_all(ws.subrange(0, k as int), diacritics);
                assert(prev.push(y@).drop_last() =~= prev);
                if count > 0 {
                    joined.push(' ');
                } else {
                    assert(joined@ =~= Seq::<char>::empty());
                }
                append(&mut joined, &y);
                count = count + 1;
                assert(joined@ =~= spaced(prev.push(y@)));
            },
            None => {},
        }
        k = k + 1;
    }
    assert(ws.subrange(0, k as int) =~= ws);
    if count == 0 {
        None
    } else {
        let text = string_of(&joined, 0, joined.len());
        assert(joined@.subrange(0, joined@.len() as int) =~= joined@);
        Some(nfc(text.as_str()))
    }
}

pub open spec fn opt_string(o: Option<String>) -> Option<Seq<char>> {
    match o {
        Some(s) => Some(s@),
        None => None,
    }
}

/// The diacritic Yale form of each syllable of a Jyutping reading, each
/// composed on its own, for use beside an already split reading. Syllables
/// without a tone digit are left out; none when no syllable converts.
pub fn jyutping_to_yale_vec(jyutping: &str) -> (r: Option<Vec<String>>)
    ensures
        match r {
            Some(v) => reading_yale_syllables(jyutping@) == Some(strings_view(v@)),
            None => reading_yale_syllables(jyutping@) is None,
        },
{
    let chars = chars_of(jyutping);
    let syllables = split_words(&chars);
    let ghost ws = views(syllables@);
    if syllables.len() == 0 {
        assert(ws.len() == 0);
        return None;
    }
    let mut out: Vec<String> = Vec::new();
    let mut k: usize = 0;
    while k < syllables.len()
        invariant
            k <= syllables@.len(),
            ws == views(syllables@),
            ws == words(jyutping@),
            strings_view(out@) == convert_all(ws.subrange(0, k as int), true).map_values(
                |y: Seq<char>| nfc_of(y),
            ),
        decreases syllables@.len() - k,
    {
        proof {
            lemma_convert_step(ws, k as int, true);
        }
        match convert_syllable(&syllables[k], true) {
            Some(y) => {
                let text = string_of(&y, 0, y.len());
                assert(y@.subrange(0, y@.len() as int) =~= y@);
                let composed = nfc(text.as_str());
                let ghost before = strings_view(out@);
                out.push(composed);
                assert(strings_view(out@) =~= before.push(nfc_of(y@)));
                assert(convert_all(ws.subrange(0, k + 1), true).map_values(|y: Seq<char>| nfc_of(y))
                    =~= convert_all(ws.subrange(0, k as int), true).map_values(|y: Seq<char>| nfc_of(y)).push(nfc_of(y@)));
            },
            None => {},
        }
        k = k + 1;
    }
    assert(ws.subrange(0, k as int) =~= ws);
    if out.len() == 0 {
        None
    } else {
        Some(out)
    }
}

} // verus!
