use vstd::prelude::*;

use crate::query::FilterOp;
use crate::ternary::Ternary;
use crate::text::{
    chars_of, in_class, is_word, join_words, lead_end, lemma_lead_end, lemma_lead_end_at,
    lemma_tokens_are_words, lemma_tokens_of_join, lemma_trail_start, lemma_trail_start_at,
    lemma_trim_word, message, same_chars, strip, strip_exec, string_of, tokens, tokens_exec,
    trail_start, trim, views, CharClass,
};

verus! {

broadcast use vstd::string::to_string_from_display_ensures_for_str;

/// Whether `c` is the lowercase ASCII letter `k` in either case.
pub open spec fn char_ci_eq(c: char, k: char) -> bool {
    c == k || (c as u32) + 32 == (k as u32)
}

/// Whether the word `w` is the keyword `kw` (lowercase letters) in any mix
/// of cases.
pub open spec fn is_keyword(w: Seq<char>, kw: Seq<char>) -> bool {
    &&& w.len() == kw.len()
    &&& forall|q: int| 0 <= q < kw.len() ==> char_ci_eq(#[trigger] w[q], kw[q])
}

/// The position of the first word at or after position `i` that is the
/// keyword `kw`.
pub open spec fn find_word(ws: Seq<Seq<char>>, kw: Seq<char>, i: int) -> Option<int>
    decreases ws.len() - i,
{
    if i < 0 || i >= ws.len() {
        None
    } else if is_keyword(ws[i], kw) {
        Some(i)
    } else {
        find_word(ws, kw, i + 1)
    }
}

pub open spec fn kw_select() -> Seq<char> {
    seq!['s', 'e', 'l', 'e', 'c', 't']
}

pub open spec fn kw_from() -> Seq<char> {
    seq!['f', 'r', 'o', 'm']
}

pub open spec fn kw_where() -> Seq<char> {
    seq!['w', 'h', 'e', 'r', 'e']
}

/// The ternary value a literal names: `-1`, `neg`, `NEG`; `0`, `zero`,
/// `ZERO`; `1`, `pos`, `POS`; after white space and then single quotes are
/// stripped from both ends.
pub open spec fn ternary_literal(s: Seq<char>) -> Option<Ternary> {
    let v = strip(trim(s), CharClass::Quote);
    if v == seq!['-', '1'] || v == seq!['n', 'e', 'g'] || v == seq!['N', 'E', 'G'] {
        Some(Ternary::Neg)
    } else if v == seq!['0'] || v == seq!['z', 'e', 'r', 'o'] || v == seq!['Z', 'E', 'R', 'O'] {
        Some(Ternary::Zero)
    } else if v == seq!['1'] || v == seq!['p', 'o', 's'] || v == seq!['P', 'O', 'S'] {
        Some(Ternary::Pos)
    } else {
        None
    }
}

/// The filter an operator token names, compared with `v`.
pub open spec fn filter_op_of(op: Seq<char>, v: Ternary) -> Option<FilterOp> {
    if op == seq!['='] {
        Some(FilterOp::Eq(v))
    } else if op == seq!['!', '='] {
        Some(FilterOp::Ne(v))
    } else if op == seq!['>'] {
        Some(FilterOp::Gt(v))
    } else if op == seq!['<'] {
        Some(FilterOp::Lt(v))
    } else if op == seq!['>', '='] {
        Some(FilterOp::Gte(v))
    } else if op == seq!['<', '='] {
        Some(FilterOp::Lte(v))
    } else {
        None
    }
}

/// A parsed query with its names taken as character sequences.
pub struct ParsedQueryView {
    pub select_field: Seq<char>,
    pub table_name: Seq<char>,
    pub filter: Option<(Seq<char>, FilterOp)>,
}

/// A parsed query.
pub struct ParsedQuery {
    pub select_field: String,
    pub table_name: String,
    pub filter: Option<(String, FilterOp)>,
}

impl View for ParsedQuery {
    type V = ParsedQueryView;

    open spec fn view(&self) -> ParsedQueryView {
        ParsedQueryView {
            select_field: self.select_field@,
            table_name: self.table_name@,
            filter: match self.filter {
                Some((f, op)) => Some((f@, op)),
                None => None,
            },
        }
    }
}

/// A parse result with its strings taken as character sequences.
pub open spec fn parse_result_view(r: Result<ParsedQuery, String>) -> Result<ParsedQueryView, Seq<char>> {
    match r {
        Ok(q) => Ok(q@),
        Err(e) => Err(e@),
    }
}

/// What parsing `sql` gives. The text is split into words at white space;
/// the grammar is `SELECT field FROM table [WHERE field op value]`, keywords in
/// any case. The selected field is the second word; FROM is the first keyword
/// FROM from the third word on, and the table is the word after it; WHERE is
/// the first keyword WHERE after the table, and the three words after it are
/// the filtered field, the operator and the value (with fewer than three
/// there is no filter).
pub open spec fn query_parse(sql: Seq<char>) -> Result<ParsedQueryView, Seq<char>> {
    let w = tokens(sql);
    if w.len() == 0 || !is_keyword(w[0], kw_select()) {
        Err("Query must start with SELECT"@)
    } else if w.len() < 4 {
        Err("Incomplete query"@)
    } else {
        match find_word(w, kw_from(), 2) {
            None => Err("Missing FROM"@),
            Some(i) => if i + 1 >= w.len() {
                Err("Missing table name"@)
            } else {
                let base = ParsedQueryView { select_field: w[1], table_name: w[i + 1], filter: None };
                match find_word(w, kw_where(), i + 2) {
                    None => Ok(base),
                    Some(k) => if k + 3 >= w.len() {
                        Ok(base)
                    } else {
                        match ternary_literal(w[k + 3]) {
                            None => Err("Invalid ternary value: "@ + w[k + 3]),
                            Some(v) => match filter_op_of(w[k + 2], v) {
                                None => Err("Unknown operator: "@ + w[k + 2]),
                                Some(op) => Ok(
                                    ParsedQueryView { filter: Some((w[k + 1], op)), ..base },
                                ),
                            },
                        }
                    },
                }
            },
        }
    }
}

/// Whether `c` is the lowercase ASCII letter `k` in either case.
fn ci_eq(c: char, k: char) -> (b: bool)
    ensures
        b == char_ci_eq(c, k),
{
    c == k || (c as u32) as u64 + 32 == (k as u32) as u64
}

/// Whether the word `w` is the keyword `kw`, in any case.
fn is_keyword_exec(w: &Vec<char>, kw: &Vec<char>) -> (b: bool)
    ensures
        b == is_keyword(w@, kw@),
{
    if w.len() != kw.len() {
        return false;
    }
    let mut q: usize = 0;
    while q < kw.len()
        invariant
            w@.len() == kw@.len(),
            q <= kw@.len(),
            forall|r: int| 0 <= r < q ==> char_ci_eq(#[trigger] w@[r], kw@[r]),
        decreases kw@.len() - q,
    {
        if !ci_eq(w[q], kw[q]) {
            assert(!char_ci_eq(w@[q as int], kw@[q as int]));
            return false;
        }
        q = q + 1;
    }
    true
}

/// The position of the first word at or after position `i` that is the
/// keyword `kw`.
fn find_word_exec(ws: &Vec<Vec<char>>, kw: &Vec<char>, i: usize) -> (r: Option<usize>)
    ensures
        r matches Some(k) ==> find_word(views(ws@), kw@, i as int) == Some(k as int),
        r is None ==> find_word(views(ws@), kw@, i as int) is None,
{
    let mut j = i;
    while j < ws.len()
        invariant
            i <= j,
            find_word(views(ws@), kw@, i as int) == find_word(views(ws@), kw@, j as int),
        decreases ws@.len() - j,
    {
        assert(views(ws@)[j as int] == ws@[j as int]@);
        if is_keyword_exec(&ws[j], kw) {
            return Some(j);
        }
        j = j + 1;
    }
    None
}

/// Parses a ternary literal.
fn parse_ternary_value(s: &Vec<char>) -> (r: Result<Ternary, String>)
    ensures
        r matches Ok(t) ==> ternary_literal(s@) == Some(t),
        r matches Err(e) ==> ternary_literal(s@) is None && e@ == "Invalid ternary value: "@ + s@,
{
    let v = strip_exec(&strip_exec(s, &CharClass::Space), &CharClass::Quote);
    let (n1, n2, n3) = (vec!['-', '1'], vec!['n', 'e', 'g'], vec!['N', 'E', 'G']);
    let (z1, z2, z3) = (vec!['0'], vec!['z', 'e', 'r', 'o'], vec!['Z', 'E', 'R', 'O']);
    let (p1, p2, p3) = (vec!['1'], vec!['p', 'o', 's'], vec!['P', 'O', 'S']);
    assert(n1@ == seq!['-', '1'] && n2@ == seq!['n', 'e', 'g'] && n3@ == seq!['N', 'E', 'G']);
    assert(z1@ == seq!['0'] && z2@ == seq!['z', 'e', 'r', 'o'] && z3@ == seq!['Z', 'E', 'R', 'O']);
    assert(p1@ == seq!['1'] && p2@ == seq!['p', 'o', 's'] && p3@ == seq!['P', 'O', 'S']);
    if same_chars(&v, &n1) || same_chars(&v, &n2) || same_chars(&v, &n3) {
        Ok(Ternary::Neg)
    } else if same_chars(&v, &z1) || same_chars(&v, &z2) || same_chars(&v, &z3) {
        Ok(Ternary::Zero)
    } else if same_chars(&v, &p1) || same_chars(&v, &p2) || same_chars(&v, &p3) {
        Ok(Ternary::Pos)
    } else {
        Err(message("Invalid ternary value: ", s))
    }
}

/// The filter an operator token names, compared with `v`.
fn filter_op_exec(op: &Vec<char>, v: Ternary) -> (r: Option<FilterOp>)
    ensures
        r == filter_op_of(op@, v),
{
    let (eq, ne, gt) = (vec!['='], vec!['!', '='], vec!['>']);
    let (lt, ge, le) = (vec!['<'], vec!['>', '='], vec!['<', '=']);
    assert(eq@ == seq!['='] && ne@ == seq!['!', '='] && gt@ == seq!['>']);
    assert(lt@ == seq!['<'] && ge@ == seq!['>', '='] && le@ == seq!['<', '=']);
    if same_chars(op, &eq) {
        Some(FilterOp::Eq(v))
    } else if same_chars(op, &ne) {
        Some(FilterOp::Ne(v))
    } else if same_chars(op, &gt) {
        Some(FilterOp::Gt(v))
    } else if same_chars(op, &lt) {
        Some(FilterOp::Lt(v))
    } else if same_chars(op, &ge) {
        Some(FilterOp::Gte(v))
    } else if same_chars(op, &le) {
        Some(FilterOp::Lte(v))
    } else {
        None
    }
}

/// Parses `SELECT field FROM table [WHERE field op value]`. Keywords may be
/// in any case; values are `-1`/`neg`/`NEG`, `0`/`zero`/`ZERO`,
/// `1`/`pos`/`POS`; operators are `=`, `!=`, `>`, `<`, `>=`, `<=`.
pub fn parse_ternary_query(sql: &str) -> (r: Result<ParsedQuery, String>)
    ensures
        parse_result_view(r) == query_parse(sql@),
{
    let all = chars_of(sql);
    let w = tokens_exec(&all);
    let ghost wv = views(w@);
    assert(wv == tokens(sql@));
    let select = vec!['s', 'e', 'l', 'e', 'c', 't'];
    let from = vec!['f', 'r', 'o', 'm'];
    let where_kw = vec!['w', 'h', 'e', 'r', 'e'];
    assert(select@ == kw_select() && from@ == kw_from() && where_kw@ == kw_where());
    if w.len() == 0 {
        return Err("Query must start with SELECT".to_string());
    }
    assert(wv[0] == w@[0]@);
    if !is_keyword_exec(&w[0], &select) {
        return Err("Query must start with SELECT".to_string());
    }
    if w.len() < 4 {
        return Err("Incomplete query".to_string());
    }
    let i = match find_word_exec(&w, &from, 2) {
        Some(i) => i,
        None => {
            return Err("Missing FROM".to_string());
        },
    };
    proof {
        let i = i as int;
        assert(0 <= i < wv.len()) by {
            lemma_find_word_bounds(wv, kw_from(), 2);
        }
    }
    if w.len() - i <= 1 {
        return Err("Missing table name".to_string());
    }
    assert(wv[1] == w@[1]@ && wv[i + 1] == w@[i + 1]@);
    let select_field = string_of(&w[1]);
    let table_name = string_of(&w[i + 1]);
    let mut filter: Option<(String, FilterOp)> = None;
    match find_word_exec(&w, &where_kw, i + 2) {
        Some(k) => {
            proof {
                lemma_find_word_bounds(wv, kw_where(), i + 2);
            }
            if w.len() - k > 3 {
                assert(wv[k + 1] == w@[k + 1]@ && wv[k + 2] == w@[k + 2]@ && wv[k + 3] == w@[k
                    + 3]@);
                let v = match parse_ternary_value(&w[k + 3]) {
                    Ok(v) => v,
                    Err(e) => {
                        return Err(e);
                    },
                };
                let op = match filter_op_exec(&w[k + 2], v) {
                    Some(op) => op,
                    None => {
                        return Err(message("Unknown operator: ", &w[k + 2]));
                    },
                };
                filter = Some((string_of(&w[k + 1]), op));
            }
        },
        None => {},
    }
    Ok(ParsedQuery { select_field, table_name, filter })
}

/// A word that `find_word` finds lies within the sequence of words.
proof fn lemma_find_word_bounds(ws: Seq<Seq<char>>, kw: Seq<char>, i: int)
    ensures
        find_word(ws, kw, i) matches Some(k) ==> 0 <= i <= k < ws.len() && is_keyword(ws[k], kw),
    decreases ws.len() - i,
{
    if 0 <= i < ws.len() && !is_keyword(ws[i], kw) {
        lemma_find_word_bounds(ws, kw, i + 1);
    }
}

/// A query parses only if its first word is SELECT; the selected field, the
/// table name and the filtered field of a parsed query are words.
pub proof fn law_parsed_names(sql: Seq<char>)
    ensures
        query_parse(sql) is Ok ==> is_keyword(tokens(sql)[0], kw_select()),
        query_parse(sql) matches Ok(q) ==> {
            &&& is_word(q.select_field)
            &&& is_word(q.table_name)
            &&& q.filter matches Some((f, _)) ==> is_word(f)
        },
{
    lemma_tokens_are_words(sql, 0);
    let w = tokens(sql);
    if query_parse(sql) is Ok {
        assert(is_word(w[1]));
        let i = find_word(w, kw_from(), 2)->0;
        lemma_find_word_bounds(w, kw_from(), 2);
        assert(is_word(w[i + 1]));
        lemma_find_word_bounds(w, kw_where(), i + 2);
        if let Some(k) = find_word(w, kw_where(), i + 2) {
            if k + 3 < w.len() {
                assert(is_word(w[k + 1]));
            }
        }
    }
}

/// The keyword `SELECT` in capitals.
pub open spec fn upper_select() -> Seq<char> {
    seq!['S', 'E', 'L', 'E', 'C', 'T']
}

/// The keyword `FROM` in capitals.
pub open spec fn upper_from() -> Seq<char> {
    seq!['F', 'R', 'O', 'M']
}

/// The keyword `WHERE` in capitals.
pub open spec fn upper_where() -> Seq<char> {
    seq!['W', 'H', 'E', 'R', 'E']
}

/// Any field and table names that are words parse: `SELECT f FROM t` gives
/// the field `f`, the table `t` and no filter, whatever the words are (even
/// `from` or `where`).
pub proof fn law_select_from_parses(f: Seq<char>, t: Seq<char>)
    requires
        is_word(f),
        is_word(t),
    ensures
        query_parse(join_words(seq![upper_select(), f, upper_from(), t])) == Ok::<
            ParsedQueryView,
            Seq<char>,
        >(ParsedQueryView { select_field: f, table_name: t, filter: None }),
{
    let ws = seq![upper_select(), f, upper_from(), t];
    assert(forall|i: int| 0 <= i < ws.len() ==> is_word(#[trigger] ws[i])) by {
        assert(is_word(upper_select()));
        assert(is_word(upper_from()));
    }
    lemma_tokens_of_join(ws);
    let w = tokens(join_words(ws));
    assert(w == ws);
    assert(is_keyword(w[0], kw_select()));
    assert(is_keyword(w[2], kw_from()));
    assert(find_word(w, kw_from(), 2) == Some(2int));
    assert(find_word(w, kw_where(), 4) is None);
}

/// Any well-formed filtered query parses: `SELECT f FROM t WHERE g op v`
/// gives the field `f`, the table `t` and the filter on `g` that `op` and
/// `v` name, whatever words `f`, `t` and `g` are.
pub proof fn law_select_from_where_parses(
    f: Seq<char>,
    t: Seq<char>,
    g: Seq<char>,
    o: Seq<char>,
    v: Seq<char>,
    val: Ternary,
    op: FilterOp,
)
    requires
        is_word(f),
        is_word(t),
        is_word(g),
        is_word(o),
        is_word(v),
        ternary_literal(v) == Some(val),
        filter_op_of(o, val) == Some(op),
    ensures
        query_parse(join_words(seq![upper_select(), f, upper_from(), t, upper_where(), g, o, v]))
            == Ok::<ParsedQueryView, Seq<char>>(
            ParsedQueryView { select_field: f, table_name: t, filter: Some((g, op)) },
        ),
{
    let ws = seq![upper_select(), f, upper_from(), t, upper_where(), g, o, v];
    assert(forall|i: int| 0 <= i < ws.len() ==> is_word(#[trigger] ws[i])) by {
        assert(is_word(upper_select()));
        assert(is_word(upper_from()));
        assert(is_word(upper_where()));
    }
    lemma_tokens_of_join(ws);
    let w = tokens(join_words(ws));
    assert(w == ws);
    assert(is_keyword(w[0], kw_select()));
    assert(is_keyword(w[2], kw_from()));
    assert(find_word(w, kw_from(), 2) == Some(2int));
    assert(is_keyword(w[4], kw_where()));
    assert(find_word(w, kw_where(), 4) == Some(4int));
}


/// Single quotes around a value word do not change the value it names:
/// `'pos'` names what `pos` names, `'-1'` what `-1` names, and so on.
pub proof fn law_quoted_literal(s: Seq<char>)
    requires
        is_word(s),
    ensures
        ternary_literal(seq!['\''] + s + seq!['\'']) == ternary_literal(s),
{
    let x = seq!['\''] + s + seq!['\''];
    let n = s.len() as int;
    assert(x.len() == n + 2);
    assert(x[0] == '\'');
    assert(x[n + 1] == '\'');
    assert forall|q: int| 0 <= q < n implies x[q + 1] == s[q] by {}
    assert(is_word(x)) by {
        assert forall|q: int| 0 <= q < x.len() implies !crate::text::is_ws(#[trigger] x[q]) by {
            if 1 <= q <= n {
                assert(x[q] == s[q - 1]);
            }
        }
    }
    lemma_trim_word(x);
    lemma_trim_word(s);
    lemma_lead_end(s, 0, CharClass::Quote);
    lemma_trail_start(s, n, CharClass::Quote);
    let a = lead_end(s, 0, CharClass::Quote);
    let b = trail_start(s, n, CharClass::Quote);
    if a < n {
        assert forall|q: int| 0 <= q < a + 1 implies in_class(CharClass::Quote, #[trigger] x[q]) by {
            if q > 0 {
                assert(x[q] == s[q - 1]);
            }
        }
        assert(x[a + 1] == s[a]);
        lemma_lead_end_at(x, 0, a + 1, CharClass::Quote);
        assert(b > a) by {
            if b <= a {
                assert(in_class(CharClass::Quote, s[a]));
            }
        }
        assert forall|q: int| b + 1 <= q < n + 2 implies in_class(CharClass::Quote, #[trigger] x[q]) by {
            if q <= n {
                assert(x[q] == s[q - 1]);
            }
        }
        assert(x[b] == s[b - 1]);
        lemma_trail_start_at(x, n + 2, b + 1, CharClass::Quote);
        assert(x.subrange(a + 1, b + 1) =~= s.subrange(a, b));
        assert(strip(x, CharClass::Quote) == strip(s, CharClass::Quote));
    } else {
        assert forall|q: int| 0 <= q < n + 2 implies in_class(CharClass::Quote, #[trigger] x[q]) by {
            if 1 <= q <= n {
                assert(x[q] == s[q - 1]);
            }
        }
        lemma_lead_end_at(x, 0, n + 2, CharClass::Quote);
        lemma_trail_start(x, n + 2, CharClass::Quote);
        assert(strip(x, CharClass::Quote) =~= Seq::<char>::empty());
        assert(strip(s, CharClass::Quote) =~= Seq::<char>::empty());
    }
}

/// The spellings of the three values: `-1`, `neg`, `NEG` name Neg; `0`,
/// `zero`, `ZERO` name Zero; `1`, `pos`, `POS` name Pos.
pub proof fn law_literal_spellings()
    ensures
        ternary_literal(seq!['-', '1']) == Some(Ternary::Neg),
        ternary_literal(seq!['n', 'e', 'g']) == Some(Ternary::Neg),
        ternary_literal(seq!['N', 'E', 'G']) == Some(Ternary::Neg),
        ternary_literal(seq!['0']) == Some(Ternary::Zero),
        ternary_literal(seq!['z', 'e', 'r', 'o']) == Some(Ternary::Zero),
        ternary_literal(seq!['Z', 'E', 'R', 'O']) == Some(Ternary::Zero),
        ternary_literal(seq!['1']) == Some(Ternary::Pos),
        ternary_literal(seq!['p', 'o', 's']) == Some(Ternary::Pos),
        ternary_literal(seq!['P', 'O', 'S']) == Some(Ternary::Pos),
{
    let words = seq![
        seq!['-', '1'],
        seq!['n', 'e', 'g'],
        seq!['N', 'E', 'G'],
        seq!['0'],
        seq!['z', 'e', 'r', 'o'],
        seq!['Z', 'E', 'R', 'O'],
        seq!['1'],
        seq!['p', 'o', 's'],
        seq!['P', 'O', 'S'],
    ];
    assert forall|i: int| 0 <= i < words.len() implies ternary_literal(#[trigger] words[i]) == (if i < 3 {
        Some(Ternary::Neg)
    } else if i < 6 {
        Some(Ternary::Zero)
    } else {
        Some(Ternary::Pos)
    }) by {
        let w = words[i];
        assert(is_word(w));
        lemma_trim_word(w);
        lemma_lead_end_at(w, 0, 0, CharClass::Quote);
        lemma_trail_start_at(w, w.len() as int, w.len() as int, CharClass::Quote);
        assert(strip(w, CharClass::Quote) =~= w);
    }
    assert(words[0] == seq!['-', '1']);
    assert(words[1] == seq!['n', 'e', 'g']);
    assert(words[2] == seq!['N', 'E', 'G']);
    assert(words[3] == seq!['0']);
    assert(words[4] == seq!['z', 'e', 'r', 'o']);
    assert(words[5] == seq!['Z', 'E', 'R', 'O']);
    assert(words[6] == seq!['1']);
    assert(words[7] == seq!['p', 'o', 's']);
    assert(words[8] == seq!['P', 'O', 'S']);
}


/// A well-formed filtered query whose value word names no ternary value is
/// refused for that value, whatever the operator; one whose value is good but
/// whose operator is unknown is refused for the operator.
pub proof fn law_filter_errors(
    f: Seq<char>,
    t: Seq<char>,
    g: Seq<char>,
    o: Seq<char>,
    v: Seq<char>,
)
    requires
        is_word(f),
        is_word(t),
        is_word(g),
        is_word(o),
        is_word(v),
    ensures
        ternary_literal(v) is None ==> query_parse(
            join_words(seq![upper_select(), f, upper_from(), t, upper_where(), g, o, v]),
        ) == Err::<ParsedQueryView, Seq<char>>("Invalid ternary value: "@ + v),
        ternary_literal(v) matches Some(val) ==> filter_op_of(o, val) is None ==> query_parse(
            join_words(seq![upper_select(), f, upper_from(), t, upper_where(), g, o, v]),
        ) == Err::<ParsedQueryView, Seq<char>>("Unknown operator: "@ + o),
{
    let ws = seq![upper_select(), f, upper_from(), t, upper_where(), g, o, v];
    assert(forall|i: int| 0 <= i < ws.len() ==> is_word(#[trigger] ws[i])) by {
        assert(is_word(upper_select()));
        assert(is_word(upper_from()));
        assert(is_word(upper_where()));
    }
    lemma_tokens_of_join(ws);
    let w = tokens(join_words(ws));
    assert(w == ws);
    assert(is_keyword(w[0], kw_select()));
    assert(is_keyword(w[2], kw_from()));
    assert(find_word(w, kw_from(), 2) == Some(2int));
    assert(is_keyword(w[4], kw_where()));
    assert(find_word(w, kw_where(), 4) == Some(4int));
}

/// A text whose first word is not SELECT, in any case, is refused as not
/// starting with SELECT.
pub proof fn law_must_start_with_select(sql: Seq<char>)
    requires
        tokens(sql).len() == 0 || !is_keyword(tokens(sql)[0], kw_select()),
    ensures
        query_parse(sql) == Err::<ParsedQueryView, Seq<char>>("Query must start with SELECT"@),
{
}

/// A value word without quotes names a ternary value exactly when it is one of
/// that value's spellings.
pub proof fn law_literal_only_spellings(s: Seq<char>, val: Ternary)
    requires
        is_word(s),
        forall|q: int| 0 <= q < s.len() ==> #[trigger] s[q] != '\'',
    ensures
        ternary_literal(s) == Some(val) <==> match val {
            Ternary::Neg => s == seq!['-', '1'] || s == seq!['n', 'e', 'g'] || s == seq!['N', 'E', 'G'],
            Ternary::Zero => s == seq!['0'] || s == seq!['z', 'e', 'r', 'o'] || s == seq![
                'Z',
                'E',
                'R',
                'O',
            ],
            Ternary::Pos => s == seq!['1'] || s == seq!['p', 'o', 's'] || s == seq!['P', 'O', 'S'],
        },
{
    lemma_trim_word(s);
    lemma_lead_end_at(s, 0, 0, CharClass::Quote);
    lemma_trail_start_at(s, s.len() as int, s.len() as int, CharClass::Quote);
    assert(strip(s, CharClass::Quote) =~= s);
}

} // verus!
