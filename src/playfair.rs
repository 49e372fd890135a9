//! The Playfair digraph cipher over a 5×5 square of the letters `a`–`z`
//! without `j`, which is read as `i`.

use vstd::prelude::*;
use vstd::string::StrSliceExecFns;
use deunicode::deunicode;
use crate::chars::string_of;

verus! {

/// The keyword holds a character that is not an ASCII letter.
#[derive(Debug)]
pub struct NonAsciiKey;

/// A run of letters or a run of other characters of a sanitized message.
#[derive(Clone, Debug, PartialEq)]
pub enum Text {
    Word(String),
    Punctuation(String),
}

/// A Playfair cipher with its 25-letter key square, read row by row.
pub struct Playfair {
    key: Vec<char>,
}

pub uninterp spec fn transliteration_of(s: Seq<char>) -> Seq<char>;

/// Relies on `deunicode::deunicode`: an ASCII transliteration of `s`, which
/// depends on `s` alone. A string whose characters all lie below U+007F is
/// returned as it is (the fast path of `deunicode_with_tofu_cow`); U+007F
/// and the control characters after it may be dropped.
#[verifier::external_body]
fn transliterate(s: &str) -> (r: String)
    ensures
        r@ == transliteration_of(s@),
        forall|i: int| 0 <= i < r@.len() ==> (#[trigger] r@[i] as u32) < 128,
        (forall|i: int| 0 <= i < s@.len() ==> (#[trigger] s@[i] as u32) < 127) ==> r@ == s@,
{
    deunicode(s)
}

/// The characters of `s`.
fn chars_of(s: &str) -> (r: Vec<char>)
    ensures
        r@ == s@,
{
    let len = s.unicode_len();
    let mut out: Vec<char> = Vec::new();
    let mut i: usize = 0;
    while i < len
        invariant
            len == s@.len(),
            i <= len,
            out@ == s@.subrange(0, i as int),
        decreases len - i,
    {
        out.push(s.get_char(i));
        i = i + 1;
        proof {
            assert(out@ =~= s@.subrange(0, i as int));
        }
    }
    proof {
        assert(out@ =~= s@);
    }
    out
}

pub open spec fn is_ascii_alpha(c: char) -> bool {
    ('a' <= c && c <= 'z') || ('A' <= c && c <= 'Z')
}

/// The lower-case form of an ASCII letter; other characters are kept.
pub open spec fn ascii_lower(c: char) -> char {
    if 'A' <= c && c <= 'Z' {
        (((c as u32) + 32) as u8) as char
    } else {
        c
    }
}

/// `j` is read as `i`.
pub open spec fn fold_j(c: char) -> char {
    if c == 'j' {
        'i'
    } else {
        c
    }
}

/// The letters of the square: `a`–`z` without `j`.
pub open spec fn is_key_letter(c: char) -> bool {
    'a' <= c && c <= 'z' && c != 'j'
}

/// The `k`-th letter of the alphabet without `j`.
pub open spec fn letter(k: int) -> char {
    ((97 + k + if k >= 9 { 1int } else { 0int }) as u8) as char
}

pub open spec fn alphabet() -> Seq<char> {
    Seq::new(25, |k: int| letter(k))
}

/// The letters a key square is built from: the keyword in lower case with
/// `j` read as `i`, then the whole alphabet.
pub open spec fn key_source(keyword: Seq<char>) -> Seq<char> {
    keyword.map_values(|c: char| fold_j(ascii_lower(c))) + alphabet()
}

/// `s` with every repeated character after its first occurrence left out.
pub open spec fn dedup_first(s: Seq<char>) -> Seq<char>
    decreases s.len(),
{
    if s.len() == 0 {
        seq![]
    } else {
        let prev = dedup_first(s.drop_last());
        if prev.contains(s.last()) {
            prev
        } else {
            prev.push(s.last())
        }
    }
}

/// A key square: the 25 letters, each once.
pub open spec fn is_square(key: Seq<char>) -> bool {
    &&& key.len() == 25
    &&& key.no_duplicates()
    &&& forall|c: char| is_key_letter(c) <==> key.contains(c)
}

fn lower(c: char) -> (r: char)
    ensures
        r == ascii_lower(c),
{
    if 'A' <= c && c <= 'Z' {
        ((c as u8) + 32) as char
    } else {
        c
    }
}

fn fold(c: char) -> (r: char)
    ensures
        r == fold_j(c),
{
    if c == 'j' {
        'i'
    } else {
        c
    }
}

fn contains_char(v: &Vec<char>, c: char) -> (r: bool)
    ensures
        r == v@.contains(c),
{
    let mut i: usize = 0;
    while i < v.len()
        invariant
            i <= v@.len(),
            forall|k: int| 0 <= k < i ==> v@[k] != c,
        decreases v@.len() - i,
    {
        if v[i] == c {
            return true;
        }
        i = i + 1;
    }
    false
}

proof fn lemma_dedup(s: Seq<char>)
    ensures
        dedup_first(s).no_duplicates(),
        forall|c: char| dedup_first(s).contains(c) <==> s.contains(c),
    decreases s.len(),
{
    if s.len() > 0 {
        let rest = s.drop_last();
        lemma_dedup(rest);
        assert forall|c: char| s.contains(c) <==> (rest.contains(c) || c == s.last()) by {
            if s.contains(c) {
                let k = choose|k: int| 0 <= k < s.len() && s[k] == c;
                if k < s.len() - 1 {
                    assert(rest[k] == c);
                }
            }
            if rest.contains(c) {
                let k = choose|k: int| 0 <= k < rest.len() && rest[k] == c;
                assert(s[k] == c);
            }
            if c == s.last() {
                assert(s[s.len() - 1] == c);
            }
        }
        let prev = dedup_first(rest);
        if !prev.contains(s.last()) {
            assert forall|c: char| prev.push(s.last()).contains(c) <==> (prev.contains(c) || c == s.last()) by {
                if prev.push(s.last()).contains(c) {
                    let k = choose|k: int| 0 <= k < prev.len() + 1 && prev.push(s.last())[k] == c;
                    if k < prev.len() {
                        assert(prev[k] == c);
                    }
                }
                if prev.contains(c) {
                    let k = choose|k: int| 0 <= k < prev.len() && prev[k] == c;
                    assert(prev.push(s.last())[k] == c);
                }
                if c == s.last() {
                    assert(prev.push(s.last())[prev.len() as int] == c);
                }
            }
        }
    }
}

proof fn lemma_letter_onto(c: char)
    requires
        is_key_letter(c),
    ensures
        alphabet().contains(c),
{
    let v = c as u32;
    let k: int = if v < 106 { v - 97 } else { v - 98 };
    assert(alphabet()[k] == c);
}

proof fn lemma_alphabet()
    ensures
        alphabet().no_duplicates(),
        forall|c: char| alphabet().contains(c) <==> is_key_letter(c),
{
    assert forall|c: char| alphabet().contains(c) <==> is_key_letter(c) by {
        if is_key_letter(c) {
            lemma_letter_onto(c);
        }
    }
}

proof fn lemma_key_square(keyword: Seq<char>)
    requires
        forall|i: int| 0 <= i < keyword.len() ==> is_ascii_alpha(#[trigger] keyword[i]),
    ensures
        is_square(dedup_first(key_source(keyword))),
{
    let src = key_source(keyword);
    let key = dedup_first(src);
    let mapped = keyword.map_values(|c: char| fold_j(ascii_lower(c)));
    lemma_dedup(src);
    lemma_alphabet();
    assert forall|c: char| src.contains(c) <==> is_key_letter(c) by {
        if src.contains(c) {
            let k = choose|k: int| 0 <= k < src.len() && src[k] == c;
            if k < mapped.len() {
                assert(is_ascii_alpha(keyword[k]));
                assert(src[k] == fold_j(ascii_lower(keyword[k])));
            } else {
                assert(alphabet()[k - mapped.len()] == c);
            }
        }
        if is_key_letter(c) {
            lemma_letter_onto(c);
            let k = choose|k: int| 0 <= k < 25 && alphabet()[k] == c;
            assert(src[mapped.len() + k] == c);
        }
    }
    assert forall|c: char| key.contains(c) <==> alphabet().contains(c) by {
        assert(key.contains(c) <==> src.contains(c));
        assert(src.contains(c) <==> is_key_letter(c));
        assert(alphabet().contains(c) <==> is_key_letter(c));
    }
    assert(key.to_set() =~= alphabet().to_set());
    key.unique_seq_to_set();
    alphabet().unique_seq_to_set();
}

/// Characters a message keeps once in lower case: letters, space and
/// `,.:;"'`.
pub open spec fn is_kept(c: char) -> bool {
    ('a' <= c && c <= 'z') || c == ' ' || c == ',' || c == '.' || c == ':' || c == ';' || c == '"'
        || c == '\''
}

/// The text in lower case, with the characters that are not kept left out
/// and `j` read as `i`.
pub open spec fn clean(t: Seq<char>) -> Seq<char>
    decreases t.len(),
{
    if t.len() == 0 {
        seq![]
    } else {
        let c = ascii_lower(t.last());
        if is_kept(c) {
            clean(t.drop_last()).push(fold_j(c))
        } else {
            clean(t.drop_last())
        }
    }
}

/// Cutting `m` into alternate runs of letters and of other characters: the
/// runs closed so far, whether the open run is one of letters, and the open
/// run. The first run counts as one of letters, even when empty.
pub open spec fn scan(m: Seq<char>) -> (Seq<(bool, Seq<char>)>, bool, Seq<char>)
    decreases m.len(),
{
    if m.len() == 0 {
        (seq![], true, seq![])
    } else {
        let prev = scan(m.drop_last());
        let c = m.last();
        if prev.1 && !is_ascii_alpha(c) {
            (prev.0.push((true, prev.2)), false, seq![c])
        } else if !prev.1 && is_ascii_alpha(c) {
            (prev.0.push((false, prev.2)), true, seq![c])
        } else {
            (prev.0, prev.1, prev.2.push(c))
        }
    }
}

/// The runs of `m`, each marked `true` when made of letters.
pub open spec fn segments(m: Seq<char>) -> Seq<(bool, Seq<char>)> {
    let last = scan(m);
    last.0.push((last.1, last.2))
}

/// Letters taken two by two from windows of `s`: a window of two equal
/// letters gives the letter and a filler (`x`, or `a` after an `x`) and moves
/// one letter on; any other window is kept whole and moves two letters on.
pub open spec fn pair_up(s: Seq<char>) -> Seq<char>
    decreases s.len(),
{
    if s.len() < 2 {
        seq![]
    } else if s[0] == s[1] {
        seq![s[0], if s[0] == 'x' { 'a' } else { 'x' }] + pair_up(s.skip(1))
    } else {
        seq![s[0], s[1]] + pair_up(s.skip(2))
    }
}

/// A word made ready for the cipher: equal letters in one pair split by a
/// filler, and an even length.
pub open spec fn process_word(w: Seq<char>) -> Seq<char> {
    if w.len() < 2 {
        if w == seq!['x'] {
            seq!['x', 'a']
        } else {
            w.push('x')
        }
    } else {
        pair_up(w.push('x'))
    }
}

pub open spec fn process_segment(seg: (bool, Seq<char>)) -> (bool, Seq<char>) {
    if seg.0 {
        (true, process_word(seg.1))
    } else {
        seg
    }
}

/// The runs of a message ready for the cipher: transliterated to ASCII,
/// cleaned, cut into runs, and each word processed.
pub open spec fn sanitized(message: Seq<char>) -> Seq<(bool, Seq<char>)> {
    segments(clean(transliteration_of(message))).map_values(|seg: (bool, Seq<char>)| process_segment(seg))
}

/// The position of `c` in a key square.
pub open spec fn position(key: Seq<char>, c: char) -> int {
    choose|i: int| 0 <= i < key.len() && #[trigger] key[i] == c
}

/// The Playfair rule on the letters at positions `ia` and `ib` of the
/// square, moving `step` places along a shared row or column (1 to encrypt,
/// 4, that is one back, to decrypt), else swapping columns.
pub open spec fn shift_pair(key: Seq<char>, ia: int, ib: int, step: int) -> Seq<char> {
    let ra = ia / 5;
    let ca = ia % 5;
    let rb = ib / 5;
    let cb = ib % 5;
    if ra == rb {
        seq![key[ra * 5 + (ca + step) % 5], key[rb * 5 + (cb + step) % 5]]
    } else if ca == cb {
        seq![key[((ra + step) % 5) * 5 + ca], key[((rb + step) % 5) * 5 + cb]]
    } else {
        seq![key[rb * 5 + ca], key[ra * 5 + cb]]
    }
}

/// A word put through the square pair by pair; a pair with a letter that
/// is not in the square (sanitizing gives none) and a lone last letter give
/// nothing.
pub open spec fn code_word(key: Seq<char>, w: Seq<char>, step: int) -> Seq<char>
    decreases w.len(),
{
    if w.len() < 2 {
        seq![]
    } else if key.contains(w[0]) && key.contains(w[1]) {
        shift_pair(key, position(key, w[0]), position(key, w[1]), step) + code_word(key, w.skip(2), step)
    } else {
        code_word(key, w.skip(2), step)
    }
}

/// The runs put through the square: words coded, other runs kept.
pub open spec fn code_segments(key: Seq<char>, segs: Seq<(bool, Seq<char>)>, step: int) -> Seq<char>
    decreases segs.len(),
{
    if segs.len() == 0 {
        seq![]
    } else {
        (if segs[0].0 { code_word(key, segs[0].1, step) } else { segs[0].1 }) + code_segments(
            key,
            segs.skip(1),
            step,
        )
    }
}

/// Every word of the runs has an even number of letters, so that it
/// splits into pairs.
pub open spec fn words_pair_up(segs: Seq<(bool, Seq<char>)>) -> bool {
    forall|k: int| 0 <= k < segs.len() && (#[trigger] segs[k]).0 ==> segs[k].1.len() % 2 == 0
}

pub open spec fn segments_view(v: Seq<(bool, Vec<char>)>) -> Seq<(bool, Seq<char>)> {
    v.map_values(|p: (bool, Vec<char>)| (p.0, p.1@))
}

fn clean_text(t: &Vec<char>) -> (r: Vec<char>)
    ensures
        r@ == clean(t@),
{
    let mut out: Vec<char> = Vec::new();
    let mut i: usize = 0;
    proof {
        assert(t@.take(0) =~= Seq::<char>::empty());
    }
    while i < t.len()
        invariant
            i <= t@.len(),
            out@ == clean(t@.take(i as int)),
        decreases t@.len() - i,
    {
        let c = lower(t[i]);
        proof {
            assert(t@.take(i + 1).drop_last() =~= t@.take(i as int));
        }
        if ('a' <= c && c <= 'z') || c == ' ' || c == ',' || c == '.' || c == ':' || c == ';' || c == '"'
            || c == '\'' {
            out.push(fold(c));
        }
        i = i + 1;
    }
    proof {
        assert(t@.take(i as int) =~= t@);
    }
    out
}

fn cut_segments(m: &Vec<char>) -> (r: Vec<(bool, Vec<char>)>)
    ensures
        segments_view(r@) == segments(m@),
{
    let mut segs: Vec<(bool, Vec<char>)> = Vec::new();
    let mut in_word = true;
    let mut cur: Vec<char> = Vec::new();
    let mut i: usize = 0;
    proof {
        assert(m@.take(0) =~= Seq::<char>::empty());
        assert(segments_view(segs@) =~= Seq::<(bool, Seq<char>)>::empty());
    }
    while i < m.len()
        invariant
            i <= m@.len(),
            scan(m@.take(i as int)) == (segments_view(segs@), in_word, cur@),
        decreases m@.len() - i,
    {
        let c = m[i];
        let alpha = ('a' <= c && c <= 'z') || ('A' <= c && c <= 'Z');
        proof {
            assert(m@.take(i + 1).drop_last() =~= m@.take(i as int));
        }
        let ghost before = segs@;
        if in_word && !alpha {
            segs.push((true, cur));
            cur = Vec::new();
            in_word = false;
            proof {
                assert(segments_view(segs@) =~= segments_view(before).push((true, scan(m@.take(i as int)).2)));
            }
        } else if !in_word && alpha {
            segs.push((false, cur));
            cur = Vec::new();
            in_word = true;
            proof {
                assert(segments_view(segs@) =~= segments_view(before).push((false, scan(m@.take(i as int)).2)));
            }
        }
        cur.push(c);
        i = i + 1;
        proof {
            assert(cur@ =~= scan(m@.take(i as int)).2);
        }
    }
    proof {
        assert(m@.take(i as int) =~= m@);
    }
    let ghost before = segs@;
    segs.push((in_word, cur));
    proof {
        assert(segments_view(segs@) =~= segments_view(before).push((in_word, cur@)));
    }
    segs
}

fn pair_letters(w: &Vec<char>) -> (r: Vec<char>)
    requires
        w@.len() >= 2,
    ensures
        r@ == process_word(w@),
{
    let mut s = w.clone();
    proof {
        assert(s@ =~= w@);
    }
    s.push('x');
    let ghost full = s@;
    let mut out: Vec<char> = Vec::new();
    let mut i: usize = 0;
    proof {
        assert(full.skip(0) =~= full);
        assert(out@ + pair_up(full.skip(0)) =~= pair_up(full));
    }
    while s.len() - i >= 2
        invariant
            s@ == full,
            i <= full.len(),
            out@ + pair_up(full.skip(i as int)) == pair_up(full),
        decreases full.len() - i,
    {
        let a = s[i];
        let b = s[i + 1];
        let ghost rest = full.skip(i as int);
        let ghost before = out@;
        if a == b {
            out.push(a);
            if a == 'x' {
                out.push('a');
            } else {
                out.push('x');
            }
            proof {
                assert(rest.skip(1) =~= full.skip(i + 1));
                assert(out@ + pair_up(full.skip(i + 1)) =~= before + pair_up(rest));
            }
            i = i + 1;
        } else {
            out.push(a);
            out.push(b);
            proof {
                assert(rest.skip(2) =~= full.skip(i + 2));
                assert(out@ + pair_up(full.skip(i + 2)) =~= before + pair_up(rest));
            }
            i = i + 2;
        }
    }
    proof {
        assert(pair_up(full.skip(i as int)) == Seq::<char>::empty());
        assert(out@ + Seq::<char>::empty() =~= out@);
    }
    out
}

fn process(w: Vec<char>) -> (r: Vec<char>)
    ensures
        r@ == process_word(w@),
{
    if w.len() < 2 {
        let mut v = w;
        if v.len() == 1 && v[0] == 'x' {
            proof {
                assert(w@ =~= seq!['x']);
            }
            v.push('a');
            proof {
                assert(v@ =~= seq!['x', 'a']);
            }
        } else {
            proof {
                if v@.len() == 1 {
                    assert(v@[0] != seq!['x'][0]);
                } else {
                    assert(v@.len() != seq!['x'].len());
                }
            }
            v.push('x');
        }
        v
    } else {
        pair_letters(&w)
    }
}

fn sanitize(message: &str) -> (r: Vec<(bool, Vec<char>)>)
    ensures
        segments_view(r@) == sanitized(message@),
{
    let t = transliterate(message);
    let tc = chars_of(t.as_str());
    let m = clean_text(&tc);
    let mut segs = cut_segments(&m);
    let ghost raw = segments_view(segs@);
    let mut out: Vec<(bool, Vec<char>)> = Vec::new();
    let mut k: usize = 0;
    let n = segs.len();
    while k < n
        invariant
            n == raw.len(),
            k <= n,
            segs@.len() == n - k,
            forall|j: int| 0 <= j < n - k ==> (#[trigger] segs@[j].0, segs@[j].1@) == raw[j + k],
            out@.len() == k,
            forall|j: int| 0 <= j < k ==> (#[trigger] out@[j].0, out@[j].1@) == process_segment(raw[j]),
        decreases n - k,
    {
        let ghost old_segs = segs@;
        let (is_word, chars) = segs.remove(0);
        proof {
            assert(raw[k as int] == (is_word, chars@));
            assert forall|j: int| 0 <= j < n - k - 1 implies (#[trigger] segs@[j].0, segs@[j].1@) == raw[j + k + 1] by {
                assert(segs@[j] == old_segs[j + 1]);
            }
        }
        let ghost before = out@;
        if is_word {
            let processed = process(chars);
            out.push((true, processed));
        } else {
            out.push((false, chars));
        }
        k = k + 1;
    }
    proof {
        assert(segments_view(out@) =~= raw.map_values(|seg: (bool, Seq<char>)| process_segment(seg)));
    }
    out
}

/// The position of `c` in `key`, if there.
fn find(key: &Vec<char>, c: char) -> (r: Option<usize>)
    requires
        key@.no_duplicates(),
    ensures
        r is Some <==> key@.contains(c),
        r matches Some(i) ==> i < key@.len() && i == position(key@, c),
{
    let mut i: usize = 0;
    while i < key.len()
        invariant
            key@.no_duplicates(),
            i <= key@.len(),
            forall|k: int| 0 <= k < i ==> key@[k] != c,
        decreases key@.len() - i,
    {
        if key[i] == c {
            proof {
                let p = position(key@, c);
                assert(key@[i as int] == c);
                assert(0 <= p < key@.len() && key@[p] == c);
                if p != i {
                    assert(key@[p] != key@[i as int]);
                }
            }
            return Some(i);
        }
        i = i + 1;
    }
    None
}

impl Playfair {
    /// The key square, row by row.
    pub closed spec fn key(&self) -> Seq<char> {
        self.key@
    }

    pub closed spec fn wf(&self) -> bool {
        is_square(self.key@)
    }

    /// The key square of `keyword`: its letters in lower case with `j`
    /// read as `i`, then the rest of the alphabet, each letter once. A
    /// keyword with a character other than an ASCII letter is refused.
    pub fn generate_key(keyword: &str) -> (r: Result<Vec<char>, NonAsciiKey>)
        ensures
            r is Ok <==> forall|i: int| 0 <= i < keyword@.len() ==> is_ascii_alpha(#[trigger] keyword@[i]),
            r matches Ok(key) ==> key@ == dedup_first(key_source(keyword@)) && is_square(key@),
    {
        let chars = chars_of(keyword);
        let mut i: usize = 0;
        while i < chars.len()
            invariant
                chars@ == keyword@,
                i <= chars@.len(),
                forall|k: int| 0 <= k < i ==> is_ascii_alpha(#[trigger] chars@[k]),
            decreases chars@.len() - i,
        {
            let c = chars[i];
            if !(('a' <= c && c <= 'z') || ('A' <= c && c <= 'Z')) {
                return Err(NonAsciiKey);
            }
            i = i + 1;
        }
        let ghost src = key_source(keyword@);
        let ghost n = keyword@.len();
        let mut key: Vec<char> = Vec::new();
        let mut j: usize = 0;
        proof {
            assert(src.take(0) =~= Seq::<char>::empty());
        }
        while j < chars.len()
            invariant
                chars@ == keyword@,
                src == key_source(keyword@),
                n == keyword@.len(),
                j <= n,
                key@ == dedup_first(src.take(j as int)),
            decreases n - j,
        {
            let c = fold(lower(chars[j]));
            proof {
                assert(src[j as int] == c);
                assert(src.take(j + 1).drop_last() =~= src.take(j as int));
            }
            if !contains_char(&key, c) {
                key.push(c);
            }
            j = j + 1;
        }
        let mut t: usize = 0;
        while t < 25
            invariant
                src == key_source(keyword@),
                n == keyword@.len(),
                t <= 25,
                key@ == dedup_first(src.take(n + t as int)),
            decreases 25 - t,
        {
            let c = ((97 + t + if t >= 9 { 1usize } else { 0usize }) as u8) as char;
            proof {
                assert(src[n + t as int] == letter(t as int));
                assert(src.take(n + t as int + 1).drop_last() =~= src.take(n + t as int));
            }
            if !contains_char(&key, c) {
                key.push(c);
            }
            t = t + 1;
        }
        proof {
            assert(src.take(n + 25int) =~= src);
            lemma_key_square(keyword@);
        }
        Ok(key)
    }

    /// A cipher keyed by `keyword`, refused when the keyword holds a
    /// character other than an ASCII letter.
    pub fn new(keyword: &str) -> (r: Result<Playfair, NonAsciiKey>)
        ensures
            r is Ok <==> forall|i: int| 0 <= i < keyword@.len() ==> is_ascii_alpha(#[trigger] keyword@[i]),
            r matches Ok(p) ==> p.wf() && p.key() == dedup_first(key_source(keyword@)),
    {
        match Self::generate_key(keyword) {
            Ok(key) => Ok(Playfair { key }),
            Err(e) => Err(e),
        }
    }

    /// Runs of letters and of other characters of `message`, transliterated
    /// to ASCII and cleaned, each word made ready for the cipher.
    pub fn sanitize_message(message: &str) -> (r: Vec<Text>)
        ensures
            r@.len() == sanitized(message@).len(),
            forall|k: int| 0 <= k < r@.len() ==> match #[trigger] r@[k] {
                Text::Word(w) => sanitized(message@)[k] == (true, w@),
                Text::Punctuation(p) => sanitized(message@)[k] == (false, p@),
            },
    {
        let segs = sanitize(message);
        let mut out: Vec<Text> = Vec::new();
        let mut k: usize = 0;
        while k < segs.len()
            invariant
                k <= segs@.len(),
                segments_view(segs@) == sanitized(message@),
                out@.len() == k,
                forall|j: int| 0 <= j < k ==> match #[trigger] out@[j] {
                    Text::Word(w) => sanitized(message@)[j] == (true, w@),
                    Text::Punctuation(p) => sanitized(message@)[j] == (false, p@),
                },
            decreases segs@.len() - k,
        {
            let text = string_of(&segs[k].1);
            assert(segments_view(segs@)[k as int] == (segs@[k as int].0, segs@[k as int].1@));
            if segs[k].0 {
                out.push(Text::Word(text));
            } else {
                out.push(Text::Punctuation(text));
            }
            k = k + 1;
        }
        out
    }


    fn shift(&self, a: usize, b: usize, step: usize) -> (r: (char, char))
        requires
            self.wf(),
            a < 25,
            b < 25,
            step == 1 || step == 4,
        ensures
            seq![r.0, r.1] == shift_pair(self.key(), a as int, b as int, step as int),
    {
        let ra = a / 5;
        let ca = a % 5;
        let rb = b / 5;
        let cb = b % 5;
        let (x, y) = if ra == rb {
            (ra * 5 + (ca + step) % 5, rb * 5 + (cb + step) % 5)
        } else if ca == cb {
            (((ra + step) % 5) * 5 + ca, ((rb + step) % 5) * 5 + cb)
        } else {
            (rb * 5 + ca, ra * 5 + cb)
        };
        (self.key[x], self.key[y])
    }

    fn code_word(&self, w: &Vec<char>, step: usize) -> (r: Vec<char>)
        requires
            self.wf(),
            step == 1 || step == 4,
        ensures
            r@ == code_word(self.key(), w@, step as int),
    {
        let ghost key = self.key@;
        let mut out: Vec<char> = Vec::new();
        let mut i: usize = 0;
        proof {
            assert(w@.skip(0) =~= w@);
            assert(out@ + code_word(key, w@.skip(0), step as int) =~= code_word(key, w@, step as int));
        }
        while i < w.len() && w.len() - i >= 2
            invariant
                self.wf(),
                key == self.key@,
                step == 1 || step == 4,
                i <= w@.len(),
                out@ + code_word(key, w@.skip(i as int), step as int) == code_word(key, w@, step as int),
            decreases w@.len() - i,
        {
            let ghost mid = out@;
            let ghost ws = w@.skip(i as int);
            proof {
                assert(ws.skip(2) =~= w@.skip(i + 2));
                assert(ws[0] == w@[i as int] && ws[1] == w@[i + 1]);
            }
            let fa = find(&self.key, w[i]);
            let fb = find(&self.key, w[i + 1]);
            match (fa, fb) {
                (Some(a), Some(b)) => {
                    let (x, y) = self.shift(a, b, step);
                    out.push(x);
                    out.push(y);
                    proof {
                        assert(out@ =~= mid + seq![x, y]);
                    }
                },
                _ => {},
            }
            i = i + 2;
            proof {
                assert(out@ + code_word(key, w@.skip(i as int), step as int) =~= mid + code_word(key, ws, step as int));
            }
        }
        proof {
            assert(code_word(key, w@.skip(i as int), step as int) == Seq::<char>::empty());
            assert(out@ + Seq::<char>::empty() =~= out@);
        }
        out
    }

    fn code(&self, message: &str, step: usize) -> (r: String)
        requires
            self.wf(),
            step == 1 || step == 4,
        ensures
            r@ == code_segments(self.key(), sanitized(message@), step as int),
    {
        let segs = sanitize(message);
        let ghost all = segments_view(segs@);
        let ghost key = self.key@;
        let mut out: Vec<char> = Vec::new();
        let mut k: usize = 0;
        proof {
            assert(all.skip(0) =~= all);
            assert(out@ + code_segments(key, all.skip(0), step as int) =~= code_segments(key, all, step as int));
        }
        while k < segs.len()
            invariant
                self.wf(),
                key == self.key@,
                step == 1 || step == 4,
                all == segments_view(segs@),
                k <= segs@.len(),
                out@ + code_segments(key, all.skip(k as int), step as int) == code_segments(key, all, step as int),
            decreases segs@.len() - k,
        {
            let ghost before = out@;
            let ghost rest = all.skip(k as int);
            let w = &segs[k].1;
            assert(rest[0] == (segs@[k as int].0, w@));
            let ghost piece: Seq<char>;
            if segs[k].0 {
                let mut coded = self.code_word(w, step);
                out.append(&mut coded);
                proof {
                    piece = code_word(key, w@, step as int);
                }
            } else {
                let mut i: usize = 0;
                while i < w.len()
                    invariant
                        i <= w@.len(),
                        out@ == before + w@.take(i as int),
                    decreases w@.len() - i,
                {
                    out.push(w[i]);
                    i = i + 1;
                    proof {
                        assert(out@ =~= before + w@.take(i as int));
                    }
                }
                proof {
                    assert(w@.take(i as int) =~= w@);
                    piece = w@;
                }
            }
            k = k + 1;
            proof {
                assert(rest.skip(1) =~= all.skip(k as int));
                assert(out@ + code_segments(key, all.skip(k as int), step as int) =~= before + code_segments(key, rest, step as int));
            }
        }
        proof {
            assert(all.skip(k as int) =~= Seq::<(bool, Seq<char>)>::empty());
            assert(out@ + Seq::<char>::empty() =~= out@);
        }
        string_of(&out)
    }

    /// Whether every word of the sanitized `message` splits into pairs. Only
    /// a message whose cleaned text does not begin with a letter (an empty
    /// one included) fails: it leaves a one-letter word in front.
    pub fn pairs_up(message: &str) -> (r: bool)
        ensures
            r == words_pair_up(sanitized(message@)),
    {
        let segs = sanitize(message);
        let mut k: usize = 0;
        while k < segs.len()
            invariant
                k <= segs@.len(),
                segments_view(segs@) == sanitized(message@),
                forall|j: int| 0 <= j < k && (#[trigger] segs@[j]).0 ==> segs@[j].1@.len() % 2 == 0,
            decreases segs@.len() - k,
        {
            if segs[k].0 && segs[k].1.len() % 2 != 0 {
                assert(segments_view(segs@)[k as int] == (segs@[k as int].0, segs@[k as int].1@));
                return false;
            }
            k = k + 1;
        }
        proof {
            let v = segments_view(segs@);
            assert forall|j: int| 0 <= j < v.len() && (#[trigger] v[j]).0 implies v[j].1.len() % 2 == 0 by {
                assert(v[j] == (segs@[j].0, segs@[j].1@));
            }
        }
        true
    }

    /// Encrypts the sanitized `message` pair by pair with the key square;
    /// runs of other characters are copied. Every word must split into
    /// pairs (see `pairs_up`).
    pub fn encrypt(&self, message: &str) -> (r: String)
        requires
            self.wf(),
            words_pair_up(sanitized(message@)),
        ensures
            r@ == code_segments(self.key(), sanitized(message@), 1),
    {
        self.code(message, 1)
    }

    /// Decrypts the sanitized `message` pair by pair with the key square;
    /// runs of other characters are copied. Every word must split into
    /// pairs (see `pairs_up`).
    pub fn decrypt(&self, message: &str) -> (r: String)
        requires
            self.wf(),
            words_pair_up(sanitized(message@)),
        ensures
            r@ == code_segments(self.key(), sanitized(message@), 4),
    {
        self.code(message, 4)
    }

    /// `encrypt`, or `None` when a word of the sanitized `message` does not
    /// split into pairs.
    pub fn try_encrypt(&self, message: &str) -> (r: Option<String>)
        requires
            self.wf(),
        ensures
            r is Some <==> words_pair_up(sanitized(message@)),
            r matches Some(c) ==> c@ == code_segments(self.key(), sanitized(message@), 1),
    {
        if Self::pairs_up(message) {
            Some(self.encrypt(message))
        } else {
            None
        }
    }

    /// `decrypt`, or `None` when a word of the sanitized `message` does not
    /// split into pairs.
    pub fn try_decrypt(&self, message: &str) -> (r: Option<String>)
        requires
            self.wf(),
        ensures
            r is Some <==> words_pair_up(sanitized(message@)),
            r matches Some(c) ==> c@ == code_segments(self.key(), sanitized(message@), 4),
    {
        if Self::pairs_up(message) {
            Some(self.decrypt(message))
        } else {
            None
        }
    }
}

} // verus!
