//! Reading decks from Anki text exports, Anki note fields and Quizlet links.
use vstd::prelude::*;

use crate::model::{word_pairs, Word};
use crate::text::{
    chars_of, first_index, find_char, lemma_first_index, lines, replace_all, replace_chars,
    slice_chars, split_lines, starts_with, ends_with, has_prefix, has_suffix, string_of,
    to_ascii_lower, lower_ascii_chars, trim, trim_chars, trim_str, chars_eq, append_chars,
    lemma_first_index_at, lines_after, strip_cr, is_ws, trim_start, trim_end,
};

verus! {

broadcast use vstd::seq_lib::group_seq_properties;

// ───────────────────────── Anki cells ─────────────────────────

/// The characters `<br />`.
pub open spec fn br_spaced() -> Seq<char> {
    seq!['<', 'b', 'r', ' ', '/', '>']
}

/// The characters `<br/>`.
pub open spec fn br_closed() -> Seq<char> {
    seq!['<', 'b', 'r', '/', '>']
}

/// The characters `<br>`.
pub open spec fn br_open() -> Seq<char> {
    seq!['<', 'b', 'r', '>']
}

/// The characters `&amp;`.
pub open spec fn ent_amp() -> Seq<char> {
    seq!['&', 'a', 'm', 'p', ';']
}

/// The characters `&lt;`.
pub open spec fn ent_lt() -> Seq<char> {
    seq!['&', 'l', 't', ';']
}

/// The characters `&gt;`.
pub open spec fn ent_gt() -> Seq<char> {
    seq!['&', 'g', 't', ';']
}

/// The characters `&quot;`.
pub open spec fn ent_quot() -> Seq<char> {
    seq!['&', 'q', 'u', 'o', 't', ';']
}

/// The characters `&#39;`.
pub open spec fn ent_apos() -> Seq<char> {
    seq!['&', '#', '3', '9', ';']
}

/// The text of an Anki cell: line breaks (`<br />`, `<br/>`, `<br>`) become
/// newlines, then `&amp;`, `&lt;`, `&gt;`, `&quot;` and `&#39;` become the
/// characters they stand for, one after the other in that order, and the
/// result is trimmed.
pub open spec fn decode_cell(s: Seq<char>) -> Seq<char> {
    let s1 = replace_all(s, br_spaced(), seq!['\n']);
    let s2 = replace_all(s1, br_closed(), seq!['\n']);
    let s3 = replace_all(s2, br_open(), seq!['\n']);
    let s4 = replace_all(s3, ent_amp(), seq!['&']);
    let s5 = replace_all(s4, ent_lt(), seq!['<']);
    let s6 = replace_all(s5, ent_gt(), seq!['>']);
    let s7 = replace_all(s6, ent_quot(), seq!['"']);
    let s8 = replace_all(s7, ent_apos(), seq!['\'']);
    trim(s8)
}

/// [`decode_cell`] on characters.
pub fn decode_cell_chars(v: &Vec<char>) -> (r: Vec<char>)
    ensures
        r@ == decode_cell(v@),
{
    let nl = vec!['\n'];
    assert(nl@ == seq!['\n']);
    let p1 = vec!['<', 'b', 'r', ' ', '/', '>'];
    assert(p1@ == br_spaced());
    let s1 = replace_chars(v, &p1, &nl);
    let p2 = vec!['<', 'b', 'r', '/', '>'];
    assert(p2@ == br_closed());
    let s2 = replace_chars(&s1, &p2, &nl);
    let p3 = vec!['<', 'b', 'r', '>'];
    assert(p3@ == br_open());
    let s3 = replace_chars(&s2, &p3, &nl);
    let r_amp = vec!['&'];
    let r_lt = vec!['<'];
    let r_gt = vec!['>'];
    let r_quot = vec!['"'];
    let r_apos = vec!['\''];
    assert(r_amp@ == seq!['&'] && r_lt@ == seq!['<'] && r_gt@ == seq!['>']);
    assert(r_quot@ == seq!['"'] && r_apos@ == seq!['\'']);
    let p4 = vec!['&', 'a', 'm', 'p', ';'];
    assert(p4@ == ent_amp());
    let s4 = replace_chars(&s3, &p4, &r_amp);
    let p5 = vec!['&', 'l', 't', ';'];
    assert(p5@ == ent_lt());
    let s5 = replace_chars(&s4, &p5, &r_lt);
    let p6 = vec!['&', 'g', 't', ';'];
    assert(p6@ == ent_gt());
    let s6 = replace_chars(&s5, &p6, &r_gt);
    let p7 = vec!['&', 'q', 'u', 'o', 't', ';'];
    assert(p7@ == ent_quot());
    let s7 = replace_chars(&s6, &p7, &r_quot);
    let p8 = vec!['&', '#', '3', '9', ';'];
    assert(p8@ == ent_apos());
    let s8 = replace_chars(&s7, &p8, &r_apos);
    trim_chars(&s8)
}

/// The text of an Anki cell, as [`decode_cell`] says.
pub fn decode_anki_cell(input: &str) -> (r: String)
    ensures
        r@ == decode_cell(input@),
{
    let v = chars_of(input);
    let d = decode_cell_chars(&v);
    string_of(&d)
}

// ───────────────────────── Anki text ─────────────────────────

/// `s` without a leading byte order mark.
pub open spec fn strip_bom(s: Seq<char>) -> Seq<char> {
    if s.len() > 0 && s[0] == '\u{FEFF}' {
        s.drop_first()
    } else {
        s
    }
}

/// The card a line of an Anki text export holds: the cells before and after
/// its first tab, decoded, when both are non-empty.
pub open spec fn line_card(line: Seq<char>) -> Option<(Seq<char>, Seq<char>)> {
    match first_index(line, '\t') {
        None => None,
        Some(k) => {
            let front = decode_cell(line.take(k));
            let back = decode_cell(line.skip(k + 1));
            if front.len() == 0 || back.len() == 0 {
                None
            } else {
                Some((front, back))
            }
        },
    }
}

/// The cards of an Anki text export: one per line that holds a card.
pub open spec fn anki_cards(text: Seq<char>) -> Seq<(Seq<char>, Seq<char>)> {
    lines(strip_bom(text)).filter_map(|l: Seq<char>| line_card(l))
}

/// The card a line holds, as [`line_card`] says.
fn card_of_line(line: &Vec<char>) -> (r: Option<Word>)
    ensures
        match line_card(line@) {
            None => r is None,
            Some(p) => r matches Some(w) && w.pair() == p,
        },
{
    match find_char(line, '\t') {
        None => None,
        Some(k) => {
            proof {
                lemma_first_index(line@, '\t');
            }
            assert(k < line.len());
            let f = slice_chars(line, 0, k);
            let b = slice_chars(line, k + 1, line.len());
            assert(f@ == line@.take(k as int));
            assert(b@ == line@.skip(k + 1));
            proof {
                lemma_first_index(line@, '\t');
            }
            let front = decode_cell_chars(&f);
            let back = decode_cell_chars(&b);
            if front.len() == 0 || back.len() == 0 {
                None
            } else {
                Some(Word { front: string_of(&front), back: string_of(&back) })
            }
        },
    }
}

/// Reads the cards of an Anki text export, as [`anki_cards`] says: one line per
/// card, term and meaning separated by a tab, lines without both left out.
pub fn parse_anki_text(text: &str) -> (r: Vec<Word>)
    ensures
        word_pairs(r@) == anki_cards(text@),
{
    let mut v = chars_of(text);
    if v.len() > 0 && v[0] == '\u{FEFF}' {
        v.remove(0);
    }
    assert(v@ == strip_bom(text@));
    let ls = split_lines(&v);
    let ghost all = lines(v@);
    let ghost f = |l: Seq<char>| line_card(l);
    let mut out: Vec<Word> = Vec::new();
    let mut i: usize = 0;
    while i < ls.len()
        invariant
            i <= ls.len(),
            ls@.len() == all.len(),
            all == lines(v@),
            forall|j: int| 0 <= j < ls@.len() ==> #[trigger] ls@[j]@ == all[j],
            f == (|l: Seq<char>| line_card(l)),
            word_pairs(out@) == all.take(i as int).filter_map(f),
        decreases ls.len() - i,
    {
        let c = card_of_line(&ls[i]);
        proof {
            all.lemma_filter_map_take_succ(f, i as int);
        }
        match c {
            Some(w) => {
                out.push(w);
                assert(word_pairs(out@) =~= word_pairs(out@.drop_last()) + seq![out@.last().pair()]);
            },
            None => {},
        }
        i += 1;
    }
    assert(all.take(ls.len() as int) =~= all);
    out
}

/// No card read from Anki text has an empty term or meaning.
pub proof fn lemma_anki_cards_nonempty(text: Seq<char>, i: int)
    requires
        0 <= i < anki_cards(text).len(),
    ensures
        anki_cards(text)[i].0.len() > 0,
        anki_cards(text)[i].1.len() > 0,
{
    let s = lines(strip_bom(text));
    let f = |l: Seq<char>| line_card(l);
    let c = anki_cards(text)[i];
    assert(s.filter_map(f).contains(c));
    s.lemma_filter_map_contains(f, c);
}

/// Why pasted Anki text gave no cards.
#[derive(Clone, Copy, Debug, PartialEq, Eq, Structural)]
pub enum PasteError {
    /// Nothing but white space was pasted.
    Empty,
    /// No line holds a card.
    NoCards,
}

impl PasteError {
    /// The message shown for the error.
    pub open spec fn message_text(self) -> Seq<char> {
        match self {
            PasteError::Empty => "請輸入或貼上 Anki 文字"@,
            PasteError::NoCards => "無法解析任何卡片，請確認格式為「英文\\t中文」"@,
        }
    }

    /// The message shown for the error.
    pub fn message(&self) -> (s: &'static str)
        ensures
            s@ == self.message_text(),
    {
        match self {
            PasteError::Empty => "請輸入或貼上 Anki 文字",
            PasteError::NoCards => "無法解析任何卡片，請確認格式為「英文\\t中文」",
        }
    }
}

/// Reads pasted Anki text: the cards of the trimmed text, as [`anki_cards`]
/// says; an error for text that is empty once trimmed or that holds no card.
pub fn parse_pasted(text: &str) -> (r: Result<Vec<Word>, PasteError>)
    ensures
        trim(text@).len() == 0 ==> r == Err::<Vec<Word>, PasteError>(PasteError::Empty),
        trim(text@).len() > 0 && anki_cards(trim(text@)).len() == 0 ==> r == Err::<
            Vec<Word>,
            PasteError,
        >(PasteError::NoCards),
        trim(text@).len() > 0 && anki_cards(trim(text@)).len() > 0 ==> (r matches Ok(ws)
            && word_pairs(ws@) == anki_cards(trim(text@))),
{
    let t = trim_str(text);
    if t.as_str().unicode_len() == 0 {
        return Err(PasteError::Empty);
    }
    let words = parse_anki_text(t.as_str());
    if words.len() == 0 {
        Err(PasteError::NoCards)
    } else {
        Ok(words)
    }
}

/// Replacing in a text with one more character at its end, a character the
/// pattern does not hold, replaces in the text and keeps that character.
proof fn lemma_replace_push(s: Seq<char>, c: char, pat: Seq<char>, rep: Seq<char>)
    requires
        pat.len() > 0,
        !pat.contains(c),
    ensures
        replace_all(s.push(c), pat, rep) == replace_all(s, pat, rep).push(c),
    decreases s.len(),
{
    let t = s.push(c);
    if pat.len() <= t.len() && t.take(pat.len() as int) == pat {
        if pat.len() == t.len() {
            assert(pat[pat.len() - 1] == c);
            assert(pat.contains(c));
        }
        assert(s.take(pat.len() as int) =~= t.take(pat.len() as int));
        assert(t.skip(pat.len() as int) =~= s.skip(pat.len() as int).push(c));
        lemma_replace_push(s.skip(pat.len() as int), c, pat, rep);
        assert(replace_all(t, pat, rep) =~= replace_all(s, pat, rep).push(c));
    } else if s.len() == 0 {
        assert(t.drop_first() =~= Seq::<char>::empty());
        assert(replace_all(t, pat, rep) =~= replace_all(s, pat, rep).push(c));
    } else {
        if pat.len() <= s.len() {
            assert(s.take(pat.len() as int) =~= t.take(pat.len() as int));
        }
        assert(t.drop_first() =~= s.drop_first().push(c));
        lemma_replace_push(s.drop_first(), c, pat, rep);
        assert(replace_all(t, pat, rep) =~= replace_all(s, pat, rep).push(c));
    }
}

/// Whitespace added at the end of a text is trimmed away at its start too
/// when the text is all whitespace, and is kept behind it otherwise.
proof fn lemma_trim_start_push(t: Seq<char>, w: char)
    requires
        is_ws(w),
    ensures
        trim_start(t.push(w)) == trim_start(t).push(w) || (trim_start(t.push(w)).len() == 0
            && trim_start(t).len() == 0),
    decreases t.len(),
{
    if t.len() > 0 && is_ws(t[0]) {
        assert(t.push(w).drop_first() =~= t.drop_first().push(w));
        lemma_trim_start_push(t.drop_first(), w);
    } else if t.len() == 0 {
        assert(t.push(w).drop_first() =~= Seq::<char>::empty());
    }
}

/// Trimming ignores whitespace added at the end.
proof fn lemma_trim_push_ws(t: Seq<char>, w: char)
    requires
        is_ws(w),
    ensures
        trim(t.push(w)) == trim(t),
{
    lemma_trim_start_push(t, w);
    let u = trim_start(t);
    if trim_start(t.push(w)) == u.push(w) {
        assert(u.push(w).drop_last() =~= u);
    } else {
        assert(trim_start(t.push(w)) =~= Seq::<char>::empty());
        assert(u =~= Seq::<char>::empty());
    }
}

/// A pattern without a carriage return.
proof fn lemma_no_cr(pat: Seq<char>)
    requires
        forall|i: int| 0 <= i < pat.len() ==> pat[i] != '\r',
    ensures
        !pat.contains('\r'),
{
}

/// A cell with a carriage return at its end reads as the cell without it.
proof fn lemma_decode_cell_cr(s: Seq<char>)
    ensures
        decode_cell(s.push('\r')) == decode_cell(s),
{
    let c = '\r';
    lemma_no_cr(br_spaced());
    lemma_no_cr(br_closed());
    lemma_no_cr(br_open());
    lemma_no_cr(ent_amp());
    lemma_no_cr(ent_lt());
    lemma_no_cr(ent_gt());
    lemma_no_cr(ent_quot());
    lemma_no_cr(ent_apos());
    let s1 = replace_all(s, br_spaced(), seq!['\n']);
    let s2 = replace_all(s1, br_closed(), seq!['\n']);
    let s3 = replace_all(s2, br_open(), seq!['\n']);
    let s4 = replace_all(s3, ent_amp(), seq!['&']);
    let s5 = replace_all(s4, ent_lt(), seq!['<']);
    let s6 = replace_all(s5, ent_gt(), seq!['>']);
    let s7 = replace_all(s6, ent_quot(), seq!['"']);
    lemma_replace_push(s, c, br_spaced(), seq!['\n']);
    lemma_replace_push(s1, c, br_closed(), seq!['\n']);
    lemma_replace_push(s2, c, br_open(), seq!['\n']);
    lemma_replace_push(s3, c, ent_amp(), seq!['&']);
    lemma_replace_push(s4, c, ent_lt(), seq!['<']);
    lemma_replace_push(s5, c, ent_gt(), seq!['>']);
    lemma_replace_push(s6, c, ent_quot(), seq!['"']);
    lemma_replace_push(s7, c, ent_apos(), seq!['\'']);
    assert(is_ws(c));
    lemma_trim_push_ws(replace_all(s7, ent_apos(), seq!['\'']), c);
}

/// A line reads as the same card without a carriage return at its end.
proof fn lemma_line_card_cr(l: Seq<char>)
    ensures
        line_card(strip_cr(l)) == line_card(l),
{
    if l.len() > 0 && l.last() == '\r' {
        let m = l.drop_last();
        assert(m.push('\r') =~= l);
        lemma_first_index(m, '\t');
        match first_index(m, '\t') {
            Some(k) => {
                lemma_first_index_at(l, '\t', k);
                assert(l.take(k) =~= m.take(k));
                assert(l.skip(k + 1) =~= m.skip(k + 1).push('\r'));
                lemma_decode_cell_cr(m.skip(k + 1));
            },
            None => {
                lemma_first_index_at(l, '\t', m.len() as int);
                lemma_first_index(l, '\t');
                if first_index(l, '\t') is Some {
                    assert(l[m.len() as int] == '\r');
                }
            },
        }
    }
}

/// The cards of a concatenation are those of its two parts.
proof fn lemma_filter_map_add<A, B>(x: Seq<A>, y: Seq<A>, f: spec_fn(A) -> Option<B>)
    ensures
        (x + y).filter_map(f) == x.filter_map(f) + y.filter_map(f),
    decreases x.len(),
{
    if x.len() == 0 {
        assert(x + y =~= y);
        assert(x.filter_map(f) =~= Seq::<B>::empty());
        assert(Seq::<B>::empty() + y.filter_map(f) =~= y.filter_map(f));
    } else {
        lemma_filter_map_cons(x + y, f);
        lemma_filter_map_cons(x, f);
        assert((x + y).drop_first() =~= x.drop_first() + y);
        lemma_filter_map_add(x.drop_first(), y, f);
        let h = match f(x[0]) {
            Some(b) => seq![b],
            None => Seq::<B>::empty(),
        };
        assert((x + y)[0] == x[0]);
        assert(h + (x.drop_first().filter_map(f) + y.filter_map(f)) =~= (h + x.drop_first().filter_map(
            f,
        )) + y.filter_map(f));
    }
}

/// A newline ends the current line, and what follows it is read afresh.
proof fn lemma_lines_after_newline(x: Seq<char>, y: Seq<char>, cur: Seq<char>)
    ensures
        lines_after(x + seq!['\n'] + y, cur) == lines_after(x + seq!['\n'], cur) + lines_after(
            y,
            seq![],
        ),
    decreases x.len(),
{
    let s = x + seq!['\n'] + y;
    let e = x + seq!['\n'];
    if x.len() == 0 {
        assert(s.drop_first() =~= y);
        assert(e.drop_first() =~= Seq::<char>::empty());
        assert(s[0] == '\n' && e[0] == '\n');
        assert(lines_after(Seq::<char>::empty(), seq![]) =~= Seq::<Seq<char>>::empty());
        assert(lines_after(e, cur) =~= seq![strip_cr(cur)]);
        assert(lines_after(s, cur) == seq![strip_cr(cur)] + lines_after(y, seq![]));
    } else {
        assert(s.drop_first() =~= x.drop_first() + seq!['\n'] + y);
        assert(e.drop_first() =~= x.drop_first() + seq!['\n']);
        assert(s[0] == x[0] && e[0] == x[0]);
        let r = lines_after(y, seq![]);
        if x[0] == '\n' {
            lemma_lines_after_newline(x.drop_first(), y, seq![]);
            let a = lines_after(x.drop_first() + seq!['\n'], seq![]);
            assert(seq![strip_cr(cur)] + (a + r) =~= (seq![strip_cr(cur)] + a) + r);
        } else {
            lemma_lines_after_newline(x.drop_first(), y, cur.push(x[0]));
        }
    }
}

/// Ending a text with a newline adds no card.
proof fn lemma_cards_trailing_newline(x: Seq<char>, cur: Seq<char>)
    ensures
        lines_after(x + seq!['\n'], cur).filter_map(|l: Seq<char>| line_card(l)) == lines_after(
            x,
            cur,
        ).filter_map(|l: Seq<char>| line_card(l)),
    decreases x.len(),
{
    let f = |l: Seq<char>| line_card(l);
    let e = x + seq!['\n'];
    if x.len() == 0 {
        assert(e.drop_first() =~= Seq::<char>::empty());
        lemma_line_card_cr(cur);
        let l = lines_after(e, cur);
        assert(e[0] == '\n');
        assert(lines_after(Seq::<char>::empty(), seq![]) =~= Seq::<Seq<char>>::empty());
        assert(l =~= seq![strip_cr(cur)]);
        lemma_filter_map_cons(l, f);
        assert(l.drop_first() =~= Seq::<Seq<char>>::empty());
        if cur.len() == 0 {
            lemma_first_index(Seq::<char>::empty(), '\t');
            assert(line_card(Seq::<char>::empty()) is None);
            assert(strip_cr(cur) =~= cur);
        } else {
            let r = lines_after(x, cur);
            assert(r =~= seq![cur]);
            lemma_filter_map_cons(r, f);
            assert(r.drop_first() =~= Seq::<Seq<char>>::empty());
        }
    } else {
        assert(e.drop_first() =~= x.drop_first() + seq!['\n']);
        assert(e[0] == x[0]);
        if x[0] == '\n' {
            lemma_cards_trailing_newline(x.drop_first(), seq![]);
            let l1 = lines_after(e.drop_first(), seq![]);
            let l2 = lines_after(x.drop_first(), seq![]);
            lemma_filter_map_add(seq![strip_cr(cur)], l1, f);
            lemma_filter_map_add(seq![strip_cr(cur)], l2, f);
        } else {
            lemma_cards_trailing_newline(x.drop_first(), cur.push(x[0]));
        }
    }
}

/// Anki text joined by a newline reads as the cards of the first text
/// followed by those of the second (which must not begin with a byte order
/// mark, the only mark that counts being the one at the very start).
pub proof fn lemma_anki_cards_concat(a: Seq<char>, b: Seq<char>)
    requires
        !(b.len() > 0 && b[0] == '\u{FEFF}'),
    ensures
        anki_cards(a + seq!['\n'] + b) == anki_cards(a) + anki_cards(b),
{
    let f = |l: Seq<char>| line_card(l);
    let a2 = strip_bom(a);
    assert(strip_bom(a + seq!['\n'] + b) =~= a2 + seq!['\n'] + b);
    assert(strip_bom(b) == b);
    lemma_lines_after_newline(a2, b, seq![]);
    lemma_filter_map_add(lines_after(a2 + seq!['\n'], seq![]), lines_after(b, seq![]), f);
    lemma_cards_trailing_newline(a2, seq![]);
}

// ───────────────────────── Anki notes ─────────────────────────

/// The separator of fields in an Anki note.
pub open spec fn field_sep() -> char {
    '\u{1f}'
}

/// The card an Anki note holds: its first two fields (split at `'\x1f'`),
/// decoded, when there are two fields and both are non-empty.
pub open spec fn note_card(flds: Seq<char>) -> Option<(Seq<char>, Seq<char>)> {
    match first_index(flds, field_sep()) {
        None => None,
        Some(k) => {
            let rest = flds.skip(k + 1);
            let second = match first_index(rest, field_sep()) {
                Some(k2) => rest.take(k2),
                None => rest,
            };
            let front = decode_cell(flds.take(k));
            let back = decode_cell(second);
            if front.len() == 0 || back.len() == 0 {
                None
            } else {
                Some((front, back))
            }
        },
    }
}

/// The card an Anki note holds, as [`note_card`] says.
pub fn card_of_note(flds: &str) -> (r: Option<Word>)
    ensures
        match note_card(flds@) {
            None => r is None,
            Some(p) => r matches Some(w) && w.pair() == p,
        },
{
    let v = chars_of(flds);
    match find_char(&v, '\u{1f}') {
        None => None,
        Some(k) => {
            proof {
                lemma_first_index(v@, '\u{1f}');
            }
            assert(k < v.len());
            let f = slice_chars(&v, 0, k);
            let rest = slice_chars(&v, k + 1, v.len());
            assert(rest@ == v@.skip(k + 1));
            proof {
                lemma_first_index(rest@, '\u{1f}');
            }
            let second = match find_char(&rest, '\u{1f}') {
                Some(k2) => slice_chars(&rest, 0, k2),
                None => rest,
            };
            proof {
                lemma_first_index(v@, '\u{1f}');
            }
            let front = decode_cell_chars(&f);
            let back = decode_cell_chars(&second);
            if front.len() == 0 || back.len() == 0 {
                None
            } else {
                Some(Word { front: string_of(&front), back: string_of(&back) })
            }
        },
    }
}

/// Why a deck could not be imported.
#[derive(Clone, Copy, Debug, PartialEq, Eq, Structural)]
pub enum ImportError {
    /// The file is not a zip archive.
    NotAnArchive,
    /// An entry of the archive could not be read.
    EntryUnreadable,
    /// The collection inside the archive could not be read.
    CollectionUnreadable,
    /// The archive holds no `collection.anki2`.
    NoCollection,
    /// The collection could not be stored for reading.
    TempWriteFailed,
    /// The collection is not a database that can be opened.
    DeckUnreadable,
    /// The notes of the collection could not be queried.
    NotesUnreadable,
    /// The notes of the collection could not be read row by row.
    NotesUnparsable,
    /// No note holds a card.
    NoCards,
}

impl ImportError {
    /// The message shown for the error.
    pub open spec fn message_text(self) -> Seq<char> {
        match self {
            ImportError::NotAnArchive => "無法解壓縮 .apkg 檔案"@,
            ImportError::EntryUnreadable => "讀取 .apkg 失敗"@,
            ImportError::CollectionUnreadable => "讀取 collection 失敗"@,
            ImportError::NoCollection => "找不到 collection.anki2"@,
            ImportError::TempWriteFailed => "寫入暫存失敗"@,
            ImportError::DeckUnreadable => "讀取牌組資料失敗"@,
            ImportError::NotesUnreadable => "讀取卡片失敗"@,
            ImportError::NotesUnparsable => "解析卡片失敗"@,
            ImportError::NoCards => "牌組中無有效文字卡片"@,
        }
    }

    /// The message shown for the error.
    pub fn message(&self) -> (s: &'static str)
        ensures
            s@ == self.message_text(),
    {
        match self {
            ImportError::NotAnArchive => "無法解壓縮 .apkg 檔案",
            ImportError::EntryUnreadable => "讀取 .apkg 失敗",
            ImportError::CollectionUnreadable => "讀取 collection 失敗",
            ImportError::NoCollection => "找不到 collection.anki2",
            ImportError::TempWriteFailed => "寫入暫存失敗",
            ImportError::DeckUnreadable => "讀取牌組資料失敗",
            ImportError::NotesUnreadable => "讀取卡片失敗",
            ImportError::NotesUnparsable => "解析卡片失敗",
            ImportError::NoCards => "牌組中無有效文字卡片",
        }
    }
}

/// The character sequences of a list of strings.
pub open spec fn string_views(v: Seq<String>) -> Seq<Seq<char>> {
    v.map_values(|s: String| s@)
}

/// The cards of a deck's notes: one per note that holds one.
pub open spec fn notes_cards(notes: Seq<Seq<char>>) -> Seq<(Seq<char>, Seq<char>)> {
    notes.filter_map(|n: Seq<char>| note_card(n))
}

/// Reads the cards of a deck's notes, as [`notes_cards`] says; a deck without
/// any card is an error.
pub fn words_from_notes(notes: &Vec<String>) -> (r: Result<Vec<Word>, ImportError>)
    ensures
        notes_cards(string_views(notes@)).len() == 0 ==> r == Err::<Vec<Word>, ImportError>(
            ImportError::NoCards,
        ),
        notes_cards(string_views(notes@)).len() > 0 ==> (r matches Ok(ws) && word_pairs(ws@)
            == notes_cards(string_views(notes@))),
{
    let ghost all = string_views(notes@);
    let ghost f = |n: Seq<char>| note_card(n);
    let mut out: Vec<Word> = Vec::new();
    let mut i: usize = 0;
    while i < notes.len()
        invariant
            i <= notes.len(),
            all == string_views(notes@),
            f == (|n: Seq<char>| note_card(n)),
            word_pairs(out@) == all.take(i as int).filter_map(f),
        decreases notes.len() - i,
    {
        let c = card_of_note(notes[i].as_str());
        proof {
            all.lemma_filter_map_take_succ(f, i as int);
            assert(all[i as int] == notes@[i as int]@);
        }
        match c {
            Some(w) => {
                out.push(w);
                assert(word_pairs(out@) =~= word_pairs(out@.drop_last()) + seq![out@.last().pair()]);
            },
            None => {},
        }
        i += 1;
    }
    assert(all.take(notes.len() as int) =~= all);
    if out.len() == 0 {
        Err(ImportError::NoCards)
    } else {
        Ok(out)
    }
}


// ───────────────────────── Quizlet links ─────────────────────────

/// What `url::Url::parse` gives for a text: `None` when the text is not a URL,
/// else the URL's host (if it has one) and its serialization.
pub uninterp spec fn parsed_url(input: Seq<char>) -> Option<(Option<Seq<char>>, Seq<char>)>;

/// A parsed URL, read as plain values: its host, if any, and its text.
pub struct UrlParts {
    pub host: Option<String>,
    pub href: String,
}

/// The characters of an optional string.
pub open spec fn opt_view(s: Option<String>) -> Option<Seq<char>> {
    match s {
        Some(x) => Some(x@),
        None => None,
    }
}

/// Parses `input` with `url::Url::parse` and reads the result through
/// `Url::host_str` and `Url::as_str` (what `Url`'s `Display` writes). The
/// result is [`parsed_url`] of the input, which this contract names and does
/// not spell out.
#[verifier::external_body]
fn parse_url(input: &str) -> (r: Option<UrlParts>)
    ensures
        match parsed_url(input@) {
            None => r is None,
            Some(p) => r matches Some(u) && opt_view(u.host) == p.0 && u.href@ == p.1,
        },
{
    match url::Url::parse(input) {
        Ok(u) => Some(
            UrlParts {
                host: match u.host_str() {
                    Some(h) => Some(h.to_string()),
                    None => None,
                },
                href: u.as_str().to_string(),
            },
        ),
        Err(_) => None,
    }
}

/// The characters `http://`.
pub open spec fn http_prefix() -> Seq<char> {
    seq!['h', 't', 't', 'p', ':', '/', '/']
}

/// The characters `https://`.
pub open spec fn https_prefix() -> Seq<char> {
    seq!['h', 't', 't', 'p', 's', ':', '/', '/']
}

/// The characters `quizlet.com`.
pub open spec fn quizlet_host() -> Seq<char> {
    seq!['q', 'u', 'i', 'z', 'l', 'e', 't', '.', 'c', 'o', 'm']
}

/// The characters `.quizlet.com`.
pub open spec fn quizlet_subdomain() -> Seq<char> {
    seq!['.', 'q', 'u', 'i', 'z', 'l', 'e', 't', '.', 'c', 'o', 'm']
}

/// The trimmed text with `https://` in front when it names no HTTP scheme.
pub open spec fn with_scheme(t: Seq<char>) -> Seq<char> {
    if starts_with(t, http_prefix()) || starts_with(t, https_prefix()) {
        t
    } else {
        https_prefix() + t
    }
}

/// Whether a host, compared without ASCII case, is Quizlet or one of its subdomains.
pub open spec fn is_quizlet_host(host: Seq<char>) -> bool {
    let h = to_ascii_lower(host);
    h == quizlet_host() || ends_with(h, quizlet_subdomain())
}

/// The link a text stands for, when it is one to Quizlet: the trimmed text,
/// with `https://` added when it has no scheme, parsed as a URL whose host is
/// Quizlet or a subdomain of it; the result is the URL's text.
pub open spec fn quizlet_link(raw: Seq<char>) -> Option<Seq<char>> {
    let t = trim(raw);
    if t.len() == 0 {
        None
    } else {
        match parsed_url(with_scheme(t)) {
            Some((Some(host), href)) => if is_quizlet_host(host) {
                Some(href)
            } else {
                None
            },
            _ => None,
        }
    }
}

/// The link `raw` stands for, when it is one to Quizlet, as [`quizlet_link`] says.
pub fn normalize_quizlet_url(raw: &str) -> (r: Option<String>)
    ensures
        opt_view(r) == quizlet_link(raw@),
{
    let v = chars_of(raw);
    let t = trim_chars(&v);
    if t.len() == 0 {
        return None;
    }
    let http = vec!['h', 't', 't', 'p', ':', '/', '/'];
    let https = vec!['h', 't', 't', 'p', 's', ':', '/', '/'];
    assert(http@ == http_prefix());
    assert(https@ == https_prefix());
    let full = if has_prefix(&t, &http) || has_prefix(&t, &https) {
        t
    } else {
        let mut f = https;
        append_chars(&mut f, &t);
        f
    };
    assert(full@ == with_scheme(trim(raw@)));
    let text = string_of(&full);
    let parts = match parse_url(text.as_str()) {
        Some(p) => p,
        None => {
            return None;
        },
    };
    let host = match parts.host {
        Some(h) => h,
        None => {
            return None;
        },
    };
    let hv = chars_of(host.as_str());
    let lower = lower_ascii_chars(&hv);
    let q = vec!['q', 'u', 'i', 'z', 'l', 'e', 't', '.', 'c', 'o', 'm'];
    let dq = vec!['.', 'q', 'u', 'i', 'z', 'l', 'e', 't', '.', 'c', 'o', 'm'];
    assert(q@ == quizlet_host());
    assert(dq@ == quizlet_subdomain());
    if chars_eq(&lower, &q) || has_suffix(&lower, &dq) {
        Some(parts.href)
    } else {
        None
    }
}

/// The Quizlet links of a text, one per line, each kept once where it first
/// appears.
pub open spec fn quizlet_links(input: Seq<char>) -> Seq<Seq<char>> {
    lines(input).filter_map(|l: Seq<char>| quizlet_link(l)).remove_duplicates(seq![])
}

/// Whether `s` is the text of one of `v`.
fn contains_string(v: &Vec<String>, s: &String) -> (r: bool)
    ensures
        r == string_views(v@).contains(s@),
{
    let mut i: usize = 0;
    while i < v.len()
        invariant
            i <= v.len(),
            forall|j: int| 0 <= j < i ==> v@[j]@ != s@,
        decreases v.len() - i,
    {
        if v[i] == *s {
            assert(string_views(v@)[i as int] == s@);
            return true;
        }
        i += 1;
    }
    assert forall|j: int| 0 <= j < string_views(v@).len() implies string_views(v@)[j] != s@ by {
        assert(string_views(v@)[j] == v@[j]@);
    }
    false
}

/// Reads the Quizlet links of a text, as [`quizlet_links`] says.
pub fn parse_quizlet_urls(input: &str) -> (r: Vec<String>)
    ensures
        string_views(r@) == quizlet_links(input@),
{
    let v = chars_of(input);
    let ls = split_lines(&v);
    let ghost f = |l: Seq<char>| quizlet_link(l);
    let ghost links = lines(v@).filter_map(f);
    let mut out: Vec<String> = Vec::new();
    let mut i: usize = 0;
    while i < ls.len()
        invariant
            i <= ls.len(),
            ls@.len() == lines(v@).len(),
            forall|j: int| 0 <= j < ls@.len() ==> #[trigger] ls@[j]@ == lines(v@)[j],
            f == (|l: Seq<char>| quizlet_link(l)),
            links == lines(v@).filter_map(f),
            links.remove_duplicates(seq![]) == lines(v@).skip(i as int).filter_map(f).remove_duplicates(
                string_views(out@),
            ),
        decreases ls.len() - i,
    {
        let ghost rest = lines(v@).skip(i as int);
        proof {
            lemma_filter_map_cons(rest, f);
            assert(rest.drop_first() =~= lines(v@).skip(i + 1));
        }
        let line = string_of(&ls[i]);
        match normalize_quizlet_url(line.as_str()) {
            Some(u) => {
                let seen = contains_string(&out, &u);
                proof {
                    lemma_remove_duplicates_cons(seq![u@] + rest.drop_first().filter_map(f), string_views(out@));
                    assert((seq![u@] + rest.drop_first().filter_map(f)).skip(1) =~= rest.drop_first().filter_map(f));
                }
                if !seen {
                    let ghost before = string_views(out@);
                    out.push(u);
                    assert(string_views(out@) =~= before + seq![out@.last()@]);
                }
            },
            None => {},
        }
        i += 1;
    }
    proof {
        assert(lines(v@).skip(ls.len() as int) =~= Seq::<Seq<char>>::empty());
        assert(Seq::<Seq<char>>::empty().filter_map(f) =~= Seq::<Seq<char>>::empty());
    }
    assert(lines(v@).filter_map(f).skip(0) =~= lines(v@).filter_map(f));
    out
}

/// `filter_map` of a non-empty sequence: the first item's result, then the rest's.
proof fn lemma_filter_map_cons<A, B>(s: Seq<A>, f: spec_fn(A) -> Option<B>)
    requires
        s.len() > 0,
    ensures
        s.filter_map(f) == (match f(s[0]) {
            Some(b) => seq![b],
            None => Seq::<B>::empty(),
        }) + s.drop_first().filter_map(f),
    decreases s.len(),
{
    if s.len() == 1 {
        assert(s.drop_first() =~= Seq::<A>::empty());
        assert(s.drop_last() =~= Seq::<A>::empty());
    } else {
        lemma_filter_map_cons(s.drop_last(), f);
        assert(s.drop_last().drop_first() =~= s.drop_first().drop_last());
        assert(s.drop_first().last() == s.last());
    }
}

proof fn lemma_remove_duplicates_cons<A>(s: Seq<A>, seen: Seq<A>)
    requires
        s.len() > 0,
    ensures
        s.remove_duplicates(seen) == if seen.contains(s[0]) {
            s.skip(1).remove_duplicates(seen)
        } else {
            s.skip(1).remove_duplicates(seen + seq![s[0]])
        },
{
}


proof fn lemma_remove_duplicates_prefix<A>(s: Seq<A>, seen: Seq<A>)
    ensures
        s.remove_duplicates(seen).len() >= seen.len(),
        s.remove_duplicates(seen).take(seen.len() as int) == seen,
    decreases s.len(),
{
    if s.len() > 0 {
        if seen.contains(s[0]) {
            lemma_remove_duplicates_prefix(s.skip(1), seen);
        } else {
            lemma_remove_duplicates_prefix(s.skip(1), seen + seq![s[0]]);
            let r = s.skip(1).remove_duplicates(seen + seq![s[0]]);
            assert(r.take(seen.len() as int) =~= (seen + seq![s[0]]).take(seen.len() as int));
            assert((seen + seq![s[0]]).take(seen.len() as int) =~= seen);
            assert(r.take(seen.len() as int) =~= r.take(seen.len() + 1int).take(seen.len() as int));
        }
    } else {
        assert(seen.take(seen.len() as int) =~= seen);
    }
}

/// The recent links kept: the Quizlet links among `urls`, each once where it
/// first appears, at most `max_len` of them.
pub open spec fn kept_recent(urls: Seq<Seq<char>>, max_len: nat) -> Seq<Seq<char>> {
    let all = urls.filter_map(|u: Seq<char>| quizlet_link(u)).remove_duplicates(seq![]);
    all.take(min_len(max_len, all.len()) as int)
}

/// The smaller of two lengths.
pub open spec fn min_len(a: nat, b: nat) -> nat {
    if a <= b {
        a
    } else {
        b
    }
}

/// Cleans a list of recent links, as [`kept_recent`] says.
pub fn clean_recent_urls(urls: Vec<String>, max_len: usize) -> (r: Vec<String>)
    ensures
        string_views(r@) == kept_recent(string_views(urls@), max_len as nat),
{
    let ghost all_urls = string_views(urls@);
    let ghost f = |u: Seq<char>| quizlet_link(u);
    let ghost full = all_urls.filter_map(f).remove_duplicates(seq![]);
    let mut out: Vec<String> = Vec::new();
    let mut i: usize = 0;
    assert(all_urls.skip(0) =~= all_urls);
    while i < urls.len()
        invariant
            i <= urls.len(),
            all_urls == string_views(urls@),
            f == (|u: Seq<char>| quizlet_link(u)),
            full == all_urls.filter_map(f).remove_duplicates(seq![]),
            full == all_urls.skip(i as int).filter_map(f).remove_duplicates(string_views(out@)),
            out@.len() <= max_len,
        decreases urls.len() - i,
    {
        if out.len() >= max_len {
            proof {
                lemma_remove_duplicates_prefix(
                    all_urls.skip(i as int).filter_map(f),
                    string_views(out@),
                );
            }
            assert(string_views(out@).len() == out@.len());
            assert(full.take(min_len(max_len as nat, full.len()) as int) == string_views(out@));
            return out;
        }
        let ghost rest = all_urls.skip(i as int);
        proof {
            lemma_filter_map_cons(rest, f);
            assert(rest.drop_first() =~= all_urls.skip(i + 1));
            assert(rest[0] == urls@[i as int]@);
        }
        match normalize_quizlet_url(urls[i].as_str()) {
            Some(u) => {
                let seen = contains_string(&out, &u);
                proof {
                    lemma_remove_duplicates_cons(
                        seq![u@] + rest.drop_first().filter_map(f),
                        string_views(out@),
                    );
                    assert((seq![u@] + rest.drop_first().filter_map(f)).skip(1)
                        =~= rest.drop_first().filter_map(f));
                }
                if !seen {
                    let ghost before = string_views(out@);
                    out.push(u);
                    assert(string_views(out@) =~= before + seq![out@.last()@]);
                }
            },
            None => {},
        }
        i += 1;
    }
    proof {
        assert(all_urls.skip(urls.len() as int) =~= Seq::<Seq<char>>::empty());
        assert(Seq::<Seq<char>>::empty().filter_map(f) =~= Seq::<Seq<char>>::empty());
        assert(full == string_views(out@));
        assert(full.take(full.len() as int) =~= full);
    }
    out
}

/// `list` with `u` moved (or added) to the front.
pub open spec fn bring_to_front(list: Seq<Seq<char>>, u: Seq<char>) -> Seq<Seq<char>> {
    seq![u] + list.filter(other_than(u))
}

/// Whether a link is not `u`.
pub open spec fn other_than(u: Seq<char>) -> spec_fn(Seq<char>) -> bool {
    |x: Seq<char>| x != u
}

/// `list` with each of `us` brought to the front in turn.
pub open spec fn bring_all_to_front(list: Seq<Seq<char>>, us: Seq<Seq<char>>) -> Seq<Seq<char>>
    decreases us.len(),
{
    if us.len() == 0 {
        list
    } else {
        bring_all_to_front(bring_to_front(list, us[0]), us.drop_first())
    }
}

/// The recent links after fetching `urls`: each brought to the front in turn,
/// then at most `max_len` kept.
pub open spec fn recent_after(recent: Seq<Seq<char>>, urls: Seq<Seq<char>>, max_len: nat) -> Seq<
    Seq<char>,
> {
    let all = bring_all_to_front(recent, urls);
    all.take(min_len(max_len, all.len()) as int)
}

/// `list` without the items equal to `u`.
fn without_string(list: Vec<String>, u: &String) -> (r: Vec<String>)
    ensures
        string_views(r@) == string_views(list@).filter(other_than(u@)),
{
    let ghost p = other_than(u@);
    let mut out: Vec<String> = Vec::new();
    let mut i: usize = 0;
    while i < list.len()
        invariant
            i <= list.len(),
            p == other_than(u@),
            string_views(out@) == string_views(list@).take(i as int).filter(p),
        decreases list.len() - i,
    {
        proof {
            assert(string_views(list@).take(i + 1) =~= string_views(list@).take(i as int).push(
                list@[i as int]@,
            ));
            string_views(list@).take(i as int).lemma_filter_push(list@[i as int]@, p);
        }
        if !(list[i] == *u) {
            let ghost before = string_views(out@);
            out.push(list[i].clone());
            assert(string_views(out@) =~= before.push(list@[i as int]@));
        }
        i += 1;
    }
    assert(string_views(list@).take(list.len() as int) =~= string_views(list@));
    out
}

/// Brings each of `urls` to the front of the recent links, then keeps at most
/// `max_len`, as [`recent_after`] says.
pub fn remember_recent_urls(recent: Vec<String>, urls: &Vec<String>, max_len: usize) -> (r: Vec<
    String,
>)
    ensures
        string_views(r@) == recent_after(string_views(recent@), string_views(urls@), max_len as nat),
{
    let mut list = recent;
    let mut i: usize = 0;
    let ghost us = string_views(urls@);
    assert(us.skip(0) =~= us);
    while i < urls.len()
        invariant
            i <= urls.len(),
            us == string_views(urls@),
            bring_all_to_front(string_views(recent@), us) == bring_all_to_front(
                string_views(list@),
                us.skip(i as int),
            ),
        decreases urls.len() - i,
    {
        let u = urls[i].clone();
        assert(us.skip(i as int).drop_first() =~= us.skip(i + 1));
        assert(us.skip(i as int)[0] == u@);
        let mut kept = without_string(list, &u);
        let ghost before = string_views(kept@);
        kept.insert(0, u);
        assert(string_views(kept@) =~= seq![urls@[i as int]@] + before);
        list = kept;
        i += 1;
    }
    assert(us.skip(urls.len() as int) =~= Seq::<Seq<char>>::empty());
    let ghost all = string_views(list@);
    list.truncate(max_len);
    assert(string_views(list@) =~= all.take(min_len(max_len as nat, all.len()) as int));
    list
}

/// Removing repeats leaves no repeats, given none among those already seen.
proof fn lemma_remove_duplicates_unique<A>(s: Seq<A>, seen: Seq<A>)
    requires
        seen.no_duplicates(),
    ensures
        s.remove_duplicates(seen).no_duplicates(),
    decreases s.len(),
{
    if s.len() > 0 {
        if seen.contains(s[0]) {
            lemma_remove_duplicates_unique(s.skip(1), seen);
        } else {
            let next = seen + seq![s[0]];
            assert forall|i: int, j: int|
                0 <= i < next.len() && 0 <= j < next.len() && i != j implies next[i] != next[j] by {
                if i < seen.len() && j < seen.len() {
                } else if i < seen.len() {
                    assert(seen.contains(next[i]));
                } else if j < seen.len() {
                    assert(seen.contains(next[j]));
                }
            }
            lemma_remove_duplicates_unique(s.skip(1), next);
        }
    }
}

/// The links read from a text hold no link twice.
pub proof fn lemma_quizlet_links_unique(input: Seq<char>)
    ensures
        quizlet_links(input).no_duplicates(),
{
    lemma_remove_duplicates_unique(
        lines(input).filter_map(|l: Seq<char>| quizlet_link(l)),
        Seq::<Seq<char>>::empty(),
    );
}

/// The cleaned recent links hold no link twice, and at most `max_len` of them.
pub proof fn lemma_kept_recent_unique_and_capped(urls: Seq<Seq<char>>, max_len: nat)
    ensures
        kept_recent(urls, max_len).no_duplicates(),
        kept_recent(urls, max_len).len() <= max_len,
{
    let all = urls.filter_map(|u: Seq<char>| quizlet_link(u)).remove_duplicates(seq![]);
    lemma_remove_duplicates_unique(
        urls.filter_map(|u: Seq<char>| quizlet_link(u)),
        Seq::<Seq<char>>::empty(),
    );
    let k = min_len(max_len, all.len());
    assert forall|i: int, j: int|
        0 <= i < k && 0 <= j < k && i != j implies all.take(k as int)[i] != all.take(
        k as int,
    )[j] by {
        assert(all.take(k as int)[i] == all[i] && all.take(k as int)[j] == all[j]);
    }
}

/// Bringing a link to the front of a list without repeats leaves none, and
/// puts it first.
proof fn lemma_bring_to_front_unique(list: Seq<Seq<char>>, u: Seq<char>)
    requires
        list.no_duplicates(),
    ensures
        bring_to_front(list, u).no_duplicates(),
        bring_to_front(list, u)[0] == u,
    decreases list.len(),
{
    let p = other_than(u);
    let rest = list.filter(p);
    lemma_filter_unique(list, p);
    assert(bring_to_front(list, u) =~= seq![u] + rest);
    assert forall|i: int| 0 <= i < rest.len() implies rest[i] != u by {
        list.lemma_filter_pred(p, i);
    }
    let b = bring_to_front(list, u);
    assert forall|i: int, j: int|
        0 <= i < b.len() && 0 <= j < b.len() && i != j implies b[i] != b[j] by {
        if i > 0 && j > 0 {
            assert(b[i] == rest[i - 1] && b[j] == rest[j - 1]);
        } else if i == 0 {
            assert(b[j] == rest[j - 1]);
        } else {
            assert(b[i] == rest[i - 1]);
        }
    }
}

/// Filtering a list without repeats leaves none.
proof fn lemma_filter_unique<A>(s: Seq<A>, p: spec_fn(A) -> bool)
    requires
        s.no_duplicates(),
    ensures
        s.filter(p).no_duplicates(),
    decreases s.len(),
{
    if s.len() > 0 {
        let init = s.drop_last();
        assert(init.no_duplicates());
        lemma_filter_unique(init, p);
        assert(init.push(s.last()) =~= s);
        init.lemma_filter_push(s.last(), p);
        if p(s.last()) {
            let f = init.filter(p);
            assert forall|i: int| 0 <= i < f.len() implies f[i] != s.last() by {
                init.lemma_filter_contains_rev(p, f[i]);
                assert(f.contains(f[i]));
                assert(init.contains(f[i]));
                let k = choose|k: int| 0 <= k < init.len() && init[k] == f[i];
                assert(s[k] == init[k]);
            }
            assert forall|i: int, j: int|
                0 <= i < f.len() + 1 && 0 <= j < f.len() + 1 && i != j implies f.push(
                s.last(),
            )[i] != f.push(s.last())[j] by {
                if i < f.len() && j < f.len() {
                } else if i < f.len() {
                    assert(f[i] != s.last());
                } else {
                    assert(f[j] != s.last());
                }
            }
        }
    }
}

/// After links are fetched, the recent links hold no link twice (if they held
/// none before), at most `max_len` of them, with the last link fetched first.
pub proof fn lemma_recent_after_unique(recent: Seq<Seq<char>>, urls: Seq<Seq<char>>, max_len: nat)
    requires
        recent.no_duplicates(),
    ensures
        recent_after(recent, urls, max_len).no_duplicates(),
        recent_after(recent, urls, max_len).len() <= max_len,
        urls.len() > 0 && max_len > 0 ==> recent_after(recent, urls, max_len)[0] == urls.last(),
{
    lemma_bring_all_unique(recent, urls);
    let all = bring_all_to_front(recent, urls);
    let k = min_len(max_len, all.len());
    assert forall|i: int, j: int|
        0 <= i < k && 0 <= j < k && i != j implies all.take(k as int)[i] != all.take(
        k as int,
    )[j] by {
        assert(all.take(k as int)[i] == all[i] && all.take(k as int)[j] == all[j]);
    }
}

/// Bringing several links to the front in turn leaves no repeats, and puts
/// the last of them first.
proof fn lemma_bring_all_unique(list: Seq<Seq<char>>, us: Seq<Seq<char>>)
    requires
        list.no_duplicates(),
    ensures
        bring_all_to_front(list, us).no_duplicates(),
        us.len() > 0 ==> bring_all_to_front(list, us).len() > 0 && bring_all_to_front(list, us)[0]
            == us.last(),
    decreases us.len(),
{
    if us.len() > 0 {
        lemma_bring_to_front_unique(list, us[0]);
        lemma_bring_all_unique(bring_to_front(list, us[0]), us.drop_first());
        if us.len() == 1 {
            assert(us.drop_first().len() == 0);
        } else {
            assert(us.drop_first().last() == us.last());
        }
    }
}

// ───────────────────────── fetched cards ─────────────────────────

/// The cards collected after adding the fetched `cards` (term, meaning) to
/// `pairs`: each trimmed, and added when both parts are non-empty and the
/// pair is not there yet.
pub open spec fn merge_cards(
    pairs: Seq<(Seq<char>, Seq<char>)>,
    cards: Seq<(Seq<char>, Seq<char>)>,
) -> Seq<(Seq<char>, Seq<char>)>
    decreases cards.len(),
{
    if cards.len() == 0 {
        pairs
    } else {
        let f = trim(cards[0].0);
        let b = trim(cards[0].1);
        let next = if f.len() == 0 || b.len() == 0 || pairs.contains((f, b)) {
            pairs
        } else {
            pairs.push((f, b))
        };
        merge_cards(next, cards.drop_first())
    }
}

/// The character pairs of fetched cards.
pub open spec fn card_views(cards: Seq<(String, String)>) -> Seq<(Seq<char>, Seq<char>)> {
    cards.map_values(|c: (String, String)| (c.0@, c.1@))
}

/// Whether the pair is that of one of `words`.
fn has_pair(words: &Vec<Word>, front: &Vec<char>, back: &Vec<char>) -> (r: bool)
    ensures
        r == word_pairs(words@).contains((front@, back@)),
{
    let mut i: usize = 0;
    while i < words.len()
        invariant
            i <= words.len(),
            forall|j: int| 0 <= j < i ==> #[trigger] words@[j].pair() != (front@, back@),
        decreases words.len() - i,
    {
        let f = chars_of(words[i].front.as_str());
        let b = chars_of(words[i].back.as_str());
        if chars_eq(&f, front) && chars_eq(&b, back) {
            assert(word_pairs(words@)[i as int] == (front@, back@));
            return true;
        }
        i += 1;
    }
    assert forall|j: int| 0 <= j < word_pairs(words@).len() implies word_pairs(words@)[j] != (
    front@,
    back@,
    ) by {
        assert(word_pairs(words@)[j] == words@[j].pair());
    }
    false
}

/// Adds fetched cards to `words`, as [`merge_cards`] says; returns how many
/// were added.
pub fn add_fetched_cards(words: &mut Vec<Word>, cards: &Vec<(String, String)>) -> (added: usize)
    ensures
        word_pairs(final(words)@) == merge_cards(word_pairs(old(words)@), card_views(cards@)),
        added == final(words)@.len() - old(words)@.len(),
{
    let ghost cs = card_views(cards@);
    let ghost target = merge_cards(word_pairs(words@), cs);
    let ghost start = words@.len();
    let mut added: usize = 0;
    let mut i: usize = 0;
    assert(cs.skip(0) =~= cs);
    while i < cards.len()
        invariant
            i <= cards.len(),
            cs == card_views(cards@),
            target == merge_cards(word_pairs(words@), cs.skip(i as int)),
            words@.len() == start + added,
            added <= i,
        decreases cards.len() - i,
    {
        let fv = chars_of(cards[i].0.as_str());
        let bv = chars_of(cards[i].1.as_str());
        let f = trim_chars(&fv);
        let b = trim_chars(&bv);
        assert(cs.skip(i as int)[0] == cs[i as int]);
        assert(cs.skip(i as int).drop_first() =~= cs.skip(i + 1));
        if f.len() > 0 && b.len() > 0 && !has_pair(words, &f, &b) {
            let ghost before = word_pairs(words@);
            words.push(Word { front: string_of(&f), back: string_of(&b) });
            assert(word_pairs(words@) =~= before.push((f@, b@)));
            added += 1;
        }
        i += 1;
    }
    assert(cs.skip(cards.len() as int) =~= Seq::<(Seq<char>, Seq<char>)>::empty());
    added
}

/// What fetching one Quizlet link gave: its cards (term, meaning), or the
/// text of what went wrong.
pub enum FetchOutcome {
    Cards(Vec<(String, String)>),
    Failed(String),
}

/// The message kept for a link that could not be fetched: the link, a colon
/// and a space, and what went wrong.
pub open spec fn fetch_error_text(url: Seq<char>, err: Seq<char>) -> Seq<char> {
    url + seq![':', ' '] + err
}

/// Takes in what fetching `url` gave: its cards are added to `words` as
/// [`merge_cards`] says, or the error is noted in `errors`. Returns how many
/// cards were added.
pub fn record_fetch(
    words: &mut Vec<Word>,
    errors: &mut Vec<String>,
    url: &str,
    outcome: FetchOutcome,
) -> (added: usize)
    ensures
        match outcome {
            FetchOutcome::Cards(cards) => {
                &&& word_pairs(final(words)@) == merge_cards(
                    word_pairs(old(words)@),
                    card_views(cards@),
                )
                &&& added == final(words)@.len() - old(words)@.len()
                &&& final(errors)@ == old(errors)@
            },
            FetchOutcome::Failed(e) => {
                &&& final(words)@ == old(words)@
                &&& added == 0
                &&& string_views(final(errors)@) == string_views(old(errors)@).push(
                    fetch_error_text(url@, e@),
                )
            },
        },
{
    match outcome {
        FetchOutcome::Cards(cards) => add_fetched_cards(words, &cards),
        FetchOutcome::Failed(e) => {
            let mut msg = chars_of(url);
            let sep = vec![':', ' '];
            append_chars(&mut msg, &sep);
            append_chars(&mut msg, &chars_of(e.as_str()));
            assert(msg@ =~= fetch_error_text(url@, e@));
            let ghost before = string_views(errors@);
            errors.push(string_of(&msg));
            assert(string_views(errors@) =~= before.push(fetch_error_text(url@, e@)));
            0
        },
    }
}

/// The trimmed (term, meaning) of a fetched card.
pub open spec fn trimmed_card(c: (Seq<char>, Seq<char>)) -> (Seq<char>, Seq<char>) {
    (trim(c.0), trim(c.1))
}

/// Merging fetched cards into the collected pairs keeps every pair already
/// collected, in place; adds each card whose trimmed term and meaning are both
/// non-empty (whatever other meanings its term already has), and nothing
/// else; and never makes a pair stand twice where none did.
pub proof fn lemma_merge_cards(
    pairs: Seq<(Seq<char>, Seq<char>)>,
    cards: Seq<(Seq<char>, Seq<char>)>,
)
    ensures
        merge_cards(pairs, cards).len() >= pairs.len(),
        forall|i: int| 0 <= i < pairs.len() ==> #[trigger] merge_cards(pairs, cards)[i] == pairs[i],
        forall|j: int|
            0 <= j < cards.len() && trim(cards[j].0).len() > 0 && trim(cards[j].1).len() > 0
                ==> merge_cards(pairs, cards).contains(#[trigger] trimmed_card(cards[j])),
        forall|i: int|
            pairs.len() <= i < merge_cards(pairs, cards).len() ==> exists|j: int|
                0 <= j < cards.len() && #[trigger] merge_cards(pairs, cards)[i] == trimmed_card(
                    cards[j],
                ) && trim(cards[j].0).len() > 0 && trim(cards[j].1).len() > 0,
        pairs.no_duplicates() ==> merge_cards(pairs, cards).no_duplicates(),
    decreases cards.len(),
{
    if cards.len() > 0 {
        let f = trim(cards[0].0);
        let b = trim(cards[0].1);
        let next = if f.len() == 0 || b.len() == 0 || pairs.contains((f, b)) {
            pairs
        } else {
            pairs.push((f, b))
        };
        let rest = cards.drop_first();
        let r = merge_cards(pairs, cards);
        assert(r == merge_cards(next, rest));
        lemma_merge_cards(next, rest);
        assert forall|i: int| 0 <= i < pairs.len() implies #[trigger] r[i] == pairs[i] by {
            assert(next[i] == pairs[i]);
        }
        assert forall|j: int|
            0 <= j < cards.len() && trim(cards[j].0).len() > 0 && trim(cards[j].1).len()
                > 0 implies r.contains(#[trigger] trimmed_card(cards[j])) by {
            if j == 0 {
                let k: int = if pairs.contains((f, b)) {
                    choose|k: int| 0 <= k < pairs.len() && pairs[k] == (f, b)
                } else {
                    pairs.len() as int
                };
                assert(next[k] == (f, b));
                assert(r[k] == next[k]);
            } else {
                assert(rest[j - 1] == cards[j]);
                assert(trimmed_card(rest[j - 1]) == trimmed_card(cards[j]));
            }
        }
        assert forall|i: int| pairs.len() <= i < r.len() implies exists|j: int|
            0 <= j < cards.len() && #[trigger] r[i] == trimmed_card(cards[j]) && trim(
                cards[j].0,
            ).len() > 0 && trim(cards[j].1).len() > 0 by {
            if i < next.len() {
                assert(r[i] == next[i]);
                assert(r[i] == trimmed_card(cards[0]));
            } else {
                let j2 = choose|j: int|
                    0 <= j < rest.len() && #[trigger] r[i] == trimmed_card(rest[j]) && trim(
                        rest[j].0,
                    ).len() > 0 && trim(rest[j].1).len() > 0;
                assert(rest[j2] == cards[j2 + 1]);
            }
        }
        if pairs.no_duplicates() && next != pairs {
            assert forall|x: int, y: int|
                0 <= x < next.len() && 0 <= y < next.len() && x != y implies next[x] != next[y] by {
                if x == pairs.len() {
                    assert(pairs[y] != (f, b));
                } else if y == pairs.len() {
                    assert(pairs[x] != (f, b));
                }
            }
        }
    }
}

} // verus!
