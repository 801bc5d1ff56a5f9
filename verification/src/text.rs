use vstd::prelude::*;

verus! {

/// `String::push` (std) appends one character: the string's characters become
/// the old ones followed by `ch`.
pub assume_specification[ String::push ](s: &mut String, ch: char)
    ensures
        final(s)@ == old(s)@.push(ch),
;

/// Whether `c` is white space in Unicode's sense (the property `White_Space`).
pub open spec fn is_ws(c: char) -> bool {
    let u = c as u32;
    ||| 9 <= u <= 13
    ||| u == 32
    ||| u == 0x85
    ||| u == 0xA0
    ||| u == 0x1680
    ||| 0x2000 <= u <= 0x200A
    ||| u == 0x2028
    ||| u == 0x2029
    ||| u == 0x202F
    ||| u == 0x205F
    ||| u == 0x3000
}

/// Whether `c` is white space in Unicode's sense.
pub fn is_whitespace_char(c: char) -> (b: bool)
    ensures
        b == is_ws(c),
{
    let u = c as u32;
    (9 <= u && u <= 13) || u == 32 || u == 0x85 || u == 0xA0 || u == 0x1680 || (0x2000 <= u && u
        <= 0x200A) || u == 0x2028 || u == 0x2029 || u == 0x202F || u == 0x205F || u == 0x3000
}

/// A class of characters that scanning skips over.
pub enum CharClass {
    Space,
    Quote,
    Word,
}

/// Whether `c` belongs to the class `k`: white space, the single quote, or
/// anything but white space.
pub open spec fn in_class(k: CharClass, c: char) -> bool {
    match k {
        CharClass::Space => is_ws(c),
        CharClass::Quote => c == '\'',
        CharClass::Word => !is_ws(c),
    }
}

fn in_class_exec(k: &CharClass, c: char) -> (b: bool)
    ensures
        b == in_class(*k, c),
{
    match k {
        CharClass::Space => is_whitespace_char(c),
        CharClass::Quote => c == '\'',
        CharClass::Word => !is_whitespace_char(c),
    }
}

/// The first position at or after `i` whose character is not in class `k`
/// (or the length).
pub open spec fn lead_end(s: Seq<char>, i: int, k: CharClass) -> int
    decreases s.len() - i,
{
    if 0 <= i < s.len() && in_class(k, s[i]) {
        lead_end(s, i + 1, k)
    } else {
        i
    }
}

/// The position just past the last character before `j` that is not in class
/// `k` (or zero).
pub open spec fn trail_start(s: Seq<char>, j: int, k: CharClass) -> int
    decreases j,
{
    if 0 < j <= s.len() && in_class(k, s[j - 1]) {
        trail_start(s, j - 1, k)
    } else {
        j
    }
}

/// `s` without the characters of class `k` at either end.
pub open spec fn strip(s: Seq<char>, k: CharClass) -> Seq<char> {
    let a = lead_end(s, 0, k);
    let b = trail_start(s, s.len() as int, k);
    if a < b {
        s.subrange(a, b)
    } else {
        Seq::empty()
    }
}

/// `s` without white space at either end.
pub open spec fn trim(s: Seq<char>) -> Seq<char> {
    strip(s, CharClass::Space)
}

pub proof fn lemma_lead_end(s: Seq<char>, i: int, k: CharClass)
    requires
        0 <= i <= s.len(),
    ensures
        i <= lead_end(s, i, k) <= s.len(),
        lead_end(s, i, k) < s.len() ==> !in_class(k, s[lead_end(s, i, k)]),
        forall|q: int| i <= q < lead_end(s, i, k) ==> in_class(k, #[trigger] s[q]),
    decreases s.len() - i,
{
    if i < s.len() && in_class(k, s[i]) {
        lemma_lead_end(s, i + 1, k);
    }
}

/// The words of `s` from position `i` on: maximal runs of characters that
/// are not white space.
pub open spec fn tokens_from(s: Seq<char>, i: int) -> Seq<Seq<char>>
    decreases s.len() - i,
{
    if 0 <= i <= s.len() && lead_end(s, i, CharClass::Space) < s.len() {
        let a = lead_end(s, i, CharClass::Space);
        let b = lead_end(s, a + 1, CharClass::Word);
        proof {
            lemma_lead_end(s, i, CharClass::Space);
            lemma_lead_end(s, a + 1, CharClass::Word);
        }
        seq![s.subrange(a, b)] + tokens_from(s, b)
    } else {
        Seq::empty()
    }
}

/// The words of `s`, as `str::split_whitespace` yields them.
pub open spec fn tokens(s: Seq<char>) -> Seq<Seq<char>> {
    tokens_from(s, 0)
}

/// The character sequences of a sequence of character vectors.
pub open spec fn views(v: Seq<Vec<char>>) -> Seq<Seq<char>> {
    v.map_values(|w: Vec<char>| w@)
}

/// The characters of a string.
pub(crate) fn chars_of(s: &str) -> (r: Vec<char>)
    ensures
        r@ == s@,
{
    let mut r: Vec<char> = Vec::new();
    for c in it: s.chars()
        invariant
            r@ == it.seq().take(it.index() as int),
    {
        r.push(c);
    }
    r
}

/// A string holding the given characters.
pub(crate) fn string_of(chars: &Vec<char>) -> (r: String)
    ensures
        r@ == chars@,
{
    let mut r = String::new();
    let mut i: usize = 0;
    while i < chars.len()
        invariant
            i <= chars@.len(),
            r@ == chars@.take(i as int),
        decreases chars@.len() - i,
    {
        r.push(chars[i]);
        i = i + 1;
        assert(r@ =~= chars@.take(i as int));
    }
    assert(chars@.take(chars@.len() as int) =~= chars@);
    r
}

/// A string holding `text` followed by `more`.
pub(crate) fn message(text: &str, more: &Vec<char>) -> (r: String)
    ensures
        r@ == text@ + more@,
{
    let mut r = text.to_string();
    proof {
        vstd::string::to_string_from_display_ensures_for_str(text, r);
    }
    let ghost start = r@;
    let mut i: usize = 0;
    while i < more.len()
        invariant
            i <= more@.len(),
            start == text@,
            r@ == start + more@.take(i as int),
        decreases more@.len() - i,
    {
        r.push(more[i]);
        i = i + 1;
        assert(r@ =~= start + more@.take(i as int));
    }
    assert(more@.take(more@.len() as int) =~= more@);
    r
}

/// The characters of `s` from `lo` up to `hi`.
pub(crate) fn slice_chars(s: &Vec<char>, lo: usize, hi: usize) -> (r: Vec<char>)
    requires
        lo <= hi <= s@.len(),
    ensures
        r@ == s@.subrange(lo as int, hi as int),
{
    let mut r: Vec<char> = Vec::new();
    let mut i: usize = lo;
    while i < hi
        invariant
            lo <= i <= hi <= s@.len(),
            r@ == s@.subrange(lo as int, i as int),
        decreases hi - i,
    {
        r.push(s[i]);
        i = i + 1;
        assert(r@ =~= s@.subrange(lo as int, i as int));
    }
    r
}

/// Whether two character vectors hold the same characters.
pub(crate) fn same_chars(a: &Vec<char>, b: &Vec<char>) -> (r: bool)
    ensures
        r == (a@ == b@),
{
    if a.len() != b.len() {
        return false;
    }
    let mut i: usize = 0;
    while i < a.len()
        invariant
            a@.len() == b@.len(),
            i <= a@.len(),
            forall|j: int| 0 <= j < i ==> a@[j] == b@[j],
        decreases a@.len() - i,
    {
        if a[i] != b[i] {
            return false;
        }
        i = i + 1;
    }
    assert(a@ =~= b@);
    true
}

/// The first position at or after `i` whose character is not in class `k`.
pub(crate) fn lead_end_exec(s: &Vec<char>, i: usize, k: &CharClass) -> (r: usize)
    requires
        i <= s@.len(),
    ensures
        r == lead_end(s@, i as int, *k),
{
    let mut j = i;
    while j < s.len() && in_class_exec(k, s[j])
        invariant
            i <= j <= s@.len(),
            lead_end(s@, i as int, *k) == lead_end(s@, j as int, *k),
        decreases s@.len() - j,
    {
        j = j + 1;
    }
    j
}

/// `s` without the characters of class `k` at either end.
pub(crate) fn strip_exec(s: &Vec<char>, k: &CharClass) -> (r: Vec<char>)
    ensures
        r@ == strip(s@, *k),
{
    let a = lead_end_exec(s, 0, k);
    let mut b = s.len();
    while b > 0 && in_class_exec(k, s[b - 1])
        invariant
            b <= s@.len(),
            trail_start(s@, s@.len() as int, *k) == trail_start(s@, b as int, *k),
        decreases b,
    {
        b = b - 1;
    }
    if a < b {
        slice_chars(s, a, b)
    } else {
        Vec::new()
    }
}

/// The words of `s`.
pub(crate) fn tokens_exec(s: &Vec<char>) -> (r: Vec<Vec<char>>)
    ensures
        views(r@) == tokens(s@),
{
    let mut r: Vec<Vec<char>> = Vec::new();
    let mut i: usize = 0;
    proof {
        assert(views(r@) =~= Seq::<Seq<char>>::empty());
    }
    loop
        invariant
            i <= s@.len(),
            views(r@) + tokens_from(s@, i as int) == tokens(s@),
        decreases s@.len() - i,
    {
        let a = lead_end_exec(s, i, &CharClass::Space);
        proof {
            lemma_lead_end(s@, i as int, CharClass::Space);
        }
        if a >= s.len() {
            proof {
                assert(tokens_from(s@, i as int) == Seq::<Seq<char>>::empty());
                assert(views(r@) + Seq::<Seq<char>>::empty() =~= views(r@));
            }
            return r;
        }
        let b = lead_end_exec(s, a + 1, &CharClass::Word);
        proof {
            lemma_lead_end(s@, a + 1, CharClass::Word);
        }
        let w = slice_chars(s, a, b);
        let ghost before = views(r@);
        r.push(w);
        proof {
            assert(views(r@) =~= before.push(w@));
            assert(tokens_from(s@, i as int) == seq![w@] + tokens_from(s@, b as int));
            assert(before + (seq![w@] + tokens_from(s@, b as int)) =~= before.push(w@) + tokens_from(
                s@,
                b as int,
            ));
        }
        i = b;
    }
}


/// A word: at least one character, none of them white space.
pub open spec fn is_word(w: Seq<char>) -> bool {
    w.len() > 0 && forall|q: int| 0 <= q < w.len() ==> !is_ws(#[trigger] w[q])
}

/// Every word that splitting on white space yields is a word.
pub proof fn lemma_tokens_are_words(s: Seq<char>, i: int)
    requires
        0 <= i <= s.len(),
    ensures
        forall|k: int| 0 <= k < tokens_from(s, i).len() ==> is_word(#[trigger] tokens_from(s, i)[k]),
    decreases s.len() - i,
{
    lemma_lead_end(s, i, CharClass::Space);
    let a = lead_end(s, i, CharClass::Space);
    if a < s.len() {
        let b = lead_end(s, a + 1, CharClass::Word);
        lemma_lead_end(s, a + 1, CharClass::Word);
        lemma_tokens_are_words(s, b);
        let w = s.subrange(a, b);
        assert(is_word(w)) by {
            assert forall|q: int| 0 <= q < w.len() implies !is_ws(#[trigger] w[q]) by {
                assert(w[q] == s[a + q]);
                if q > 0 {
                    assert(in_class(CharClass::Word, s[a + q]));
                }
            }
        }
        let ts = tokens_from(s, i);
        assert(ts == seq![w] + tokens_from(s, b));
        assert forall|k: int| 0 <= k < ts.len() implies is_word(#[trigger] ts[k]) by {
            if k > 0 {
                assert(ts[k] == tokens_from(s, b)[k - 1]);
            }
        }
    }
}


/// Words joined by single spaces.
pub open spec fn join_words(ws: Seq<Seq<char>>) -> Seq<char>
    decreases ws.len(),
{
    if ws.len() == 0 {
        Seq::empty()
    } else if ws.len() == 1 {
        ws[0]
    } else {
        ws[0] + seq![' '] + join_words(ws.drop_first())
    }
}

/// Scanning a class in `p + s` from inside `s` goes as scanning `s`.
proof fn lemma_lead_end_shift(p: Seq<char>, s: Seq<char>, i: int, k: CharClass)
    requires
        0 <= i <= s.len(),
    ensures
        lead_end(p + s, p.len() + i, k) == p.len() + lead_end(s, i, k),
    decreases s.len() - i,
{
    let x = p + s;
    if i < s.len() {
        assert(x[p.len() + i] == s[i]);
        if in_class(k, s[i]) {
            lemma_lead_end_shift(p, s, i + 1, k);
        }
    }
}

/// The words of `p + s` from inside `s` are the words of `s` from there.
proof fn lemma_tokens_shift(p: Seq<char>, s: Seq<char>, i: int)
    requires
        0 <= i <= s.len(),
    ensures
        tokens_from(p + s, p.len() + i) == tokens_from(s, i),
    decreases s.len() - i,
{
    lemma_lead_end_shift(p, s, i, CharClass::Space);
    lemma_lead_end(s, i, CharClass::Space);
    let a = lead_end(s, i, CharClass::Space);
    if a < s.len() {
        lemma_lead_end_shift(p, s, a + 1, CharClass::Word);
        lemma_lead_end(s, a + 1, CharClass::Word);
        let b = lead_end(s, a + 1, CharClass::Word);
        lemma_tokens_shift(p, s, b);
        assert((p + s).subrange(p.len() + a, p.len() + b) =~= s.subrange(a, b));
    }
}

/// Scanning a word from inside it stops at its end.
proof fn lemma_word_end(x: Seq<char>, n: int, j: int)
    requires
        1 <= j <= n <= x.len(),
        forall|q: int| 0 <= q < n ==> !is_ws(#[trigger] x[q]),
        n == x.len() || is_ws(x[n]),
    ensures
        lead_end(x, j, CharClass::Word) == n,
    decreases n - j,
{
    if j < n {
        lemma_word_end(x, n, j + 1);
    }
}

/// Splitting words joined by single spaces gives the words back.
pub proof fn lemma_tokens_of_join(ws: Seq<Seq<char>>)
    requires
        forall|i: int| 0 <= i < ws.len() ==> is_word(#[trigger] ws[i]),
    ensures
        tokens(join_words(ws)) == ws,
    decreases ws.len(),
{
    if ws.len() == 0 {
        assert(tokens(join_words(ws)) =~= ws);
    } else {
        let w = ws[0];
        assert(is_word(w));
        let x = join_words(ws);
        let rest = ws.drop_first();
        if ws.len() == 1 {
            assert(x == w);
        } else {
            assert(x == w + seq![' '] + join_words(rest));
        }
        assert forall|q: int| 0 <= q < w.len() implies !is_ws(#[trigger] x[q]) by {
            assert(x[q] == w[q]);
            assert(!is_ws(w[q]));
        }
        if ws.len() > 1 {
            assert(x[w.len() as int] == ' ');
        }
        assert(lead_end(x, 0, CharClass::Space) == 0);
        lemma_word_end(x, w.len() as int, 1);
        assert(x.subrange(0, w.len() as int) =~= w);
        assert(tokens(x) == seq![w] + tokens_from(x, w.len() as int));
        if ws.len() == 1 {
            assert(tokens_from(x, w.len() as int) =~= Seq::<Seq<char>>::empty());
        } else {
            assert forall|i: int| 0 <= i < rest.len() implies is_word(#[trigger] rest[i]) by {
                assert(rest[i] == ws[i + 1]);
            }
            lemma_tokens_of_join(rest);
            let p = w + seq![' '];
            assert(lead_end(x, w.len() as int, CharClass::Space) == lead_end(
                x,
                w.len() + 1int,
                CharClass::Space,
            ));
            assert(tokens_from(x, w.len() as int) == tokens_from(x, w.len() + 1int));
            lemma_tokens_shift(p, join_words(rest), 0);
            assert(tokens_from(x, w.len() + 1int) == tokens(join_words(rest)));
        }
        assert(tokens(x) =~= ws);
    }
}


/// Scanning a class from `i` stops at `m` when every character from `i` up to
/// `m` is in the class and the one at `m` (if any) is not.
pub proof fn lemma_lead_end_at(x: Seq<char>, i: int, m: int, k: CharClass)
    requires
        0 <= i <= m <= x.len(),
        forall|q: int| i <= q < m ==> in_class(k, #[trigger] x[q]),
        m == x.len() || !in_class(k, x[m]),
    ensures
        lead_end(x, i, k) == m,
    decreases m - i,
{
    if i < m {
        lemma_lead_end_at(x, i + 1, m, k);
    }
}

/// Scanning a class backwards from `j` stops at `m` when every character from
/// `m` up to `j` is in the class and the one before `m` (if any) is not.
pub proof fn lemma_trail_start_at(x: Seq<char>, j: int, m: int, k: CharClass)
    requires
        0 <= m <= j <= x.len(),
        forall|q: int| m <= q < j ==> in_class(k, #[trigger] x[q]),
        m == 0 || !in_class(k, x[m - 1]),
    ensures
        trail_start(x, j, k) == m,
    decreases j - m,
{
    if m < j {
        lemma_trail_start_at(x, j - 1, m, k);
    }
}

pub proof fn lemma_trail_start(s: Seq<char>, j: int, k: CharClass)
    requires
        0 <= j <= s.len(),
    ensures
        0 <= trail_start(s, j, k) <= j,
        trail_start(s, j, k) > 0 ==> !in_class(k, s[trail_start(s, j, k) - 1]),
        forall|q: int| trail_start(s, j, k) <= q < j ==> in_class(k, #[trigger] s[q]),
    decreases j,
{
    if 0 < j && in_class(k, s[j - 1]) {
        lemma_trail_start(s, j - 1, k);
    }
}

/// A word has no white space to trim.
pub proof fn lemma_trim_word(s: Seq<char>)
    requires
        is_word(s),
    ensures
        trim(s) == s,
{
    lemma_lead_end_at(s, 0, 0, CharClass::Space);
    lemma_trail_start_at(s, s.len() as int, s.len() as int, CharClass::Space);
    assert(s.subrange(0, s.len() as int) =~= s);
}

} // verus!
