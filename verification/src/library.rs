//! Rules of the deck library: deck colours, dates, folder paths, tags and names.
use vstd::prelude::*;

use crate::text::{
    append_chars, chars_of, join, join_chars, seq_views, slice_chars, split_chars, split_on,
    string_of, trim, trim_chars, trim_str, is_ws,
};

verus! {

broadcast use vstd::seq_lib::group_seq_properties, vstd::string::group_string_axioms;

/// A deck or a folder of the library.
#[derive(Clone, Debug)]
pub struct Deck {
    pub id: i64,
    pub name: String,
    pub color: String,
    pub word_count: i64,
    pub is_folder: bool,
    pub parent_id: Option<i64>,
    pub updated_at: String,
}

/// How many colours new decks take in turn.
pub const DECK_COLOR_COUNT: usize = 8;

/// The colour a new deck takes at position `i` of the cycle.
pub open spec fn deck_color_text(i: int) -> Seq<char> {
    if i == 0 {
        "#006c45"@
    } else if i == 1 {
        "#008757"@
    } else if i == 2 {
        "#279b57"@
    } else if i == 3 {
        "#4eb674"@
    } else if i == 4 {
        "#6dd391"@
    } else if i == 5 {
        "#a0f2ad"@
    } else if i == 6 {
        "#005232"@
    } else {
        "#003920"@
    }
}

/// The colour of a new deck when `count` decks and folders exist: the colours
/// are taken in turn, by `count` (as a `usize`) modulo `DECK_COLOR_COUNT`.
pub fn deck_color(count: i64) -> (c: &'static str)
    ensures
        c@ == deck_color_text(((count as usize) % DECK_COLOR_COUNT) as int),
{
    let i = (count as usize) % DECK_COLOR_COUNT;
    if i == 0 {
        "#006c45"
    } else if i == 1 {
        "#008757"
    } else if i == 2 {
        "#279b57"
    } else if i == 3 {
        "#4eb674"
    } else if i == 4 {
        "#6dd391"
    } else if i == 5 {
        "#a0f2ad"
    } else if i == 6 {
        "#005232"
    } else {
        "#003920"
    }
}

/// How many characters of a date are shown: `YYYY-MM-DD HH:MM`.
pub const DATE_SHOWN_LEN: usize = 16;

/// The first `DATE_SHOWN_LEN` characters of a stored date (all of a shorter one).
pub fn shown_date(s: &str) -> (r: String)
    ensures
        r@ == (if s@.len() <= DATE_SHOWN_LEN {
            s@
        } else {
            s@.take(DATE_SHOWN_LEN as int)
        }),
{
    let v = chars_of(s);
    let n = if v.len() <= DATE_SHOWN_LEN {
        v.len()
    } else {
        DATE_SHOWN_LEN
    };
    let t = slice_chars(&v, 0, n);
    assert(v@.subrange(0, v@.len() as int) =~= v@);
    string_of(&t)
}

/// The deck a library row describes.
pub fn deck_from_row(
    id: i64,
    name: String,
    color: String,
    word_count: i64,
    is_folder: i64,
    parent_id: Option<i64>,
    updated_at: &str,
) -> (d: Deck)
    ensures
        d.id == id,
        d.name == name,
        d.color == color,
        d.word_count == word_count,
        d.is_folder == (is_folder != 0),
        d.parent_id == parent_id,
        d.updated_at@ == (if updated_at@.len() <= DATE_SHOWN_LEN {
            updated_at@
        } else {
            updated_at@.take(DATE_SHOWN_LEN as int)
        }),
{
    Deck {
        id,
        name,
        color,
        word_count,
        is_folder: is_folder != 0,
        parent_id,
        updated_at: shown_date(updated_at),
    }
}

// ───────────────────────── names ─────────────────────────

/// The name typed for a new deck, folder or new name: the trimmed text, when
/// it is not empty.
pub fn entry_name(input: &str) -> (r: Option<String>)
    ensures
        trim(input@).len() == 0 ==> r is None,
        trim(input@).len() > 0 ==> (r matches Some(s) && s@ == trim(input@)),
{
    let t = trim_chars(&chars_of(input));
    if t.len() == 0 {
        None
    } else {
        Some(string_of(&t))
    }
}

/// A word typed in: its front and back, trimmed, when neither is empty.
pub fn word_entry(front: &str, back: &str) -> (r: Option<(String, String)>)
    ensures
        (trim(front@).len() == 0 || trim(back@).len() == 0) ==> r is None,
        (trim(front@).len() > 0 && trim(back@).len() > 0) ==> (r matches Some(p) && p.0@ == trim(
            front@,
        ) && p.1@ == trim(back@)),
{
    let f = trim_chars(&chars_of(front));
    let b = trim_chars(&chars_of(back));
    if f.len() == 0 || b.len() == 0 {
        None
    } else {
        Some((string_of(&f), string_of(&b)))
    }
}

/// Where imported cards go: a deck that exists, or a new deck of this name.
#[derive(Clone, Debug)]
pub enum ImportTarget {
    Existing(i64),
    New(String),
}

/// Where imported cards go: the deck chosen if any, else a new deck named by
/// the trimmed name; `None` when no deck is chosen and the name is empty.
pub fn import_target(deck_id: Option<i64>, new_name: &str) -> (r: Option<ImportTarget>)
    ensures
        deck_id matches Some(id) ==> r == Some(ImportTarget::Existing(id)),
        deck_id is None && trim(new_name@).len() == 0 ==> r is None,
        deck_id is None && trim(new_name@).len() > 0 ==> (r matches Some(ImportTarget::New(n))
            && n@ == trim(new_name@)),
{
    match deck_id {
        Some(id) => Some(ImportTarget::Existing(id)),
        None => match entry_name(new_name) {
            Some(n) => Some(ImportTarget::New(n)),
            None => None,
        },
    }
}

// ───────────────────────── tags ─────────────────────────

/// A tag as stored: trimmed and in double quotes.
pub open spec fn quoted_tag(t: Seq<char>) -> Seq<char> {
    seq!['"'] + trim(t) + seq!['"']
}

/// The stored form of a tag list typed as comma-separated text: `[]` for no
/// text, else each part between commas, trimmed and quoted, in square
/// brackets and separated by commas.
pub open spec fn tags_text(input: Seq<char>) -> Seq<char> {
    if input.len() == 0 {
        seq!['[', ']']
    } else {
        seq!['['] + join(split_on(input, ',').map_values(|t: Seq<char>| quoted_tag(t)), seq![','])
            + seq![']']
    }
}

/// The stored form of a tag list, as [`tags_text`] says.
pub fn tags_json(input: &str) -> (r: String)
    ensures
        r@ == tags_text(input@),
{
    let v = chars_of(input);
    if v.len() == 0 {
        let e = vec!['[', ']'];
        return string_of(&e);
    }
    let parts = split_chars(&v, ',');
    let ghost ps = split_on(v@, ',');
    let mut quoted: Vec<Vec<char>> = Vec::new();
    let mut i: usize = 0;
    while i < parts.len()
        invariant
            i <= parts.len(),
            seq_views(parts@) == ps,
            seq_views(quoted@) == ps.take(i as int).map_values(|t: Seq<char>| quoted_tag(t)),
        decreases parts.len() - i,
    {
        let t = trim_chars(&parts[i]);
        let mut q = vec!['"'];
        append_chars(&mut q, &t);
        q.push('"');
        assert(q@ == quoted_tag(ps[i as int]));
        let ghost before = seq_views(quoted@);
        quoted.push(q);
        assert(seq_views(quoted@) =~= before.push(q@));
        assert(ps.take(i + 1).map_values(|t: Seq<char>| quoted_tag(t)) =~= ps.take(
            i as int,
        ).map_values(|t: Seq<char>| quoted_tag(t)).push(quoted_tag(ps[i as int])));
        i += 1;
    }
    assert(ps.take(parts.len() as int) =~= ps);
    let comma = vec![','];
    assert(comma@ =~= seq![',']);
    let body = join_chars(&quoted, &comma);
    assert(body@ == join(ps.map_values(|t: Seq<char>| quoted_tag(t)), seq![',']));
    let mut out = vec!['['];
    append_chars(&mut out, &body);
    out.push(']');
    assert(out@ =~= seq!['['] + body@ + seq![']']);
    assert(v@ == input@);
    assert(v@.len() > 0);
    string_of(&out)
}

/// A tag that reads back as itself: not empty, without a comma, and without
/// whitespace at either end.
pub open spec fn plain_tag(t: Seq<char>) -> bool {
    t.len() > 0 && !t.contains(',') && trim(t) == t
}

/// A word's tags as the edit dialog shows them: separated by `, `.
pub open spec fn tags_shown(tags: Seq<Seq<char>>) -> Seq<char> {
    join(tags, seq![',', ' '])
}

/// A text in double quotes.
pub open spec fn in_quotes() -> spec_fn(Seq<char>) -> Seq<char> {
    |t: Seq<char>| seq!['"'] + t + seq!['"']
}

/// The JSON array of tags that need no escaping: each in double quotes,
/// separated by commas, in square brackets.
pub open spec fn tags_array(tags: Seq<Seq<char>>) -> Seq<char> {
    seq!['['] + join(tags.map_values(in_quotes()), seq![',']) + seq![']']
}

/// A text after one space.
pub open spec fn after_space() -> spec_fn(Seq<char>) -> Seq<char> {
    |t: Seq<char>| seq![' '] + t
}

/// Splitting tags joined by `, ` at the commas, behind a first text `p`: the
/// first part is `p` and the first tag, the others a space and a tag.
proof fn lemma_split_joined(p: Seq<char>, ts: Seq<Seq<char>>)
    requires
        ts.len() >= 1,
        !p.contains(','),
        forall|i: int| 0 <= i < ts.len() ==> !(#[trigger] ts[i]).contains(','),
    ensures
        split_on(p + join(ts, seq![',', ' ']), ',') == seq![p + ts[0]] + ts.drop_first().map_values(
            after_space(),
        ),
    decreases ts.len(),
{
    let sep = seq![',', ' '];
    assert(!(p + ts[0]).contains(',')) by {
        if (p + ts[0]).contains(',') {
            let j = choose|j: int| 0 <= j < (p + ts[0]).len() && (p + ts[0])[j] == ',';
            if j < p.len() {
                assert(p[j] == ',');
                assert(p.contains(','));
            } else {
                assert(ts[0][j - p.len()] == ',');
                assert(ts[0].contains(','));
            }
        }
    }
    if ts.len() == 1 {
        crate::text::lemma_split_none(p + ts[0], ',');
        assert(ts.drop_first().map_values(after_space()) =~= Seq::<Seq<char>>::empty());
        assert(seq![p + ts[0]] + Seq::<Seq<char>>::empty() =~= seq![p + ts[0]]);
    } else {
        crate::text::lemma_join_front(ts, sep);
        let rest = ts.drop_first();
        assert(p + join(ts, sep) =~= (p + ts[0]) + seq![','] + (seq![' '] + join(rest, sep)));
        crate::text::lemma_split_after(p + ts[0], seq![' '] + join(rest, sep), ',');
        assert(!seq![' '].contains(',')) by {
            if seq![' '].contains(',') {
                let j = choose|j: int| 0 <= j < 1 && seq![' '][j] == ',';
            }
        }
        assert forall|i: int| 0 <= i < rest.len() implies !(#[trigger] rest[i]).contains(',') by {
            assert(rest[i] == ts[i + 1]);
        }
        lemma_split_joined(seq![' '], rest);
        assert(rest.map_values(after_space()) =~= seq![seq![' '] + rest[0]] + rest.drop_first().map_values(
            after_space(),
        ));
        assert(seq![p + ts[0]] + (seq![seq![' '] + rest[0]] + rest.drop_first().map_values(
            after_space(),
        )) =~= seq![p + ts[0]] + rest.map_values(after_space()));
    }
}

/// Trimming a text behind one space trims the text.
proof fn lemma_trim_after_space(t: Seq<char>)
    ensures
        trim(seq![' '] + t) == trim(t),
{
    let s = seq![' '] + t;
    assert(is_ws(' '));
    assert(s.drop_first() =~= t);
    assert(crate::text::trim_start(s) == crate::text::trim_start(t));
}

/// Tags shown for editing and saved unchanged are stored as the JSON array of
/// the same tags, when each reads back as itself.
pub proof fn lemma_tags_round_trip(tags: Seq<Seq<char>>)
    requires
        forall|i: int| 0 <= i < tags.len() ==> plain_tag(#[trigger] tags[i]),
    ensures
        tags_text(tags_shown(tags)) == tags_array(tags),
{
    if tags.len() == 0 {
        assert(tags.map_values(in_quotes()) =~= Seq::<Seq<char>>::empty());
        assert(tags_array(tags) =~= seq!['[', ']']);
    } else {
        assert forall|i: int| 0 <= i < tags.len() implies !(#[trigger] tags[i]).contains(',') by {
            assert(plain_tag(tags[i]));
        }
        assert(!Seq::<char>::empty().contains(',')) by {
            if Seq::<char>::empty().contains(',') {
                let j = choose|j: int| 0 <= j < 0 && Seq::<char>::empty()[j] == ',';
            }
        }
        lemma_split_joined(Seq::<char>::empty(), tags);
        assert(Seq::<char>::empty() + join(tags, seq![',', ' ']) =~= tags_shown(tags));
        assert(Seq::<char>::empty() + tags[0] =~= tags[0]);
        assert(tags_shown(tags).len() > 0) by {
            if tags.len() >= 2 {
                crate::text::lemma_join_front(tags, seq![',', ' ']);
            }
            assert(plain_tag(tags[0]));
        }
        let parts = split_on(tags_shown(tags), ',');
        assert(parts.map_values(|t: Seq<char>| quoted_tag(t)) =~= tags.map_values(in_quotes())) by {
            assert forall|i: int| 0 <= i < tags.len() implies quoted_tag(#[trigger] parts[i]) == in_quotes()(
                tags[i],
            ) by {
                assert(plain_tag(tags[i]));
                if i == 0 {
                    assert(parts[0] == tags[0]);
                } else {
                    assert(parts[i] == seq![' '] + tags[i]);
                    lemma_trim_after_space(tags[i]);
                }
            }
        }
    }
}

// ───────────────────────── folders ─────────────────────────

/// A folder as the search groups see it: its name and the folder it is in.
#[derive(Clone, Debug)]
pub struct FolderEntry {
    pub id: i64,
    pub name: String,
    pub parent_id: Option<i64>,
}

/// Position of the first folder with `id`.
pub open spec fn find_folder(fs: Seq<FolderEntry>, id: i64) -> Option<int>
    decreases fs.len(),
{
    if fs.len() == 0 {
        None
    } else if fs[0].id == id {
        Some(0)
    } else {
        match find_folder(fs.drop_first(), id) {
            Some(k) => Some(k + 1),
            None => None,
        }
    }
}

proof fn lemma_find_folder_at(fs: Seq<FolderEntry>, id: i64, k: int)
    requires
        0 <= k <= fs.len(),
        forall|j: int| 0 <= j < k ==> #[trigger] fs[j].id != id,
    ensures
        k < fs.len() && fs[k].id == id ==> find_folder(fs, id) == Some(k),
        k == fs.len() ==> find_folder(fs, id) is None,
    decreases k,
{
    if k > 0 {
        let t = fs.drop_first();
        assert forall|j: int| 0 <= j < k - 1 implies #[trigger] t[j].id != id by {
            assert(t[j] == fs[j + 1]);
        }
        lemma_find_folder_at(t, id, k - 1);
    }
}

/// The name given to a folder that is not found.
pub open spec fn unknown_folder_text() -> Seq<char> {
    "未知資料夾"@
}

/// The name of the group of decks at the top of the library.
pub open spec fn root_group_text() -> Seq<char> {
    "根目錄"@
}

/// The separator between the folders of a path.
pub open spec fn path_sep() -> Seq<char> {
    seq![' ', '/', ' ']
}

/// The names from folder `id` up to the top, within `fuel` steps: the folder's
/// name and then those above it, ending at a folder at the top or with the
/// unknown name for a folder that is not found. `None` when `fuel` runs out.
pub open spec fn path_up(fs: Seq<FolderEntry>, id: i64, fuel: nat) -> Option<Seq<Seq<char>>>
    decreases fuel,
{
    if fuel == 0 {
        None
    } else {
        match find_folder(fs, id) {
            None => Some(seq![unknown_folder_text()]),
            Some(k) => {
                if 0 <= k < fs.len() {
                    match fs[k].parent_id {
                        None => Some(seq![fs[k].name@]),
                        Some(p) => match path_up(fs, p, (fuel - 1) as nat) {
                            Some(rest) => Some(seq![fs[k].name@] + rest),
                            None => None,
                        },
                    }
                } else {
                    None
                }
            },
        }
    }
}

/// Whether following the folders up from `id` ends.
pub open spec fn path_ends(fs: Seq<FolderEntry>, id: i64) -> bool {
    exists|fuel: nat| #[trigger] path_up(fs, id, fuel) is Some
}

/// The path of names is the same whatever fuel finds it.
pub proof fn lemma_path_up_unique(fs: Seq<FolderEntry>, id: i64, f1: nat, f2: nat)
    requires
        path_up(fs, id, f1) is Some,
        path_up(fs, id, f2) is Some,
    ensures
        path_up(fs, id, f1) == path_up(fs, id, f2),
    decreases f1,
{
    match find_folder(fs, id) {
        None => {},
        Some(k) => {
            if 0 <= k < fs.len() {
                match fs[k].parent_id {
                    None => {},
                    Some(p) => {
                        lemma_path_up_unique(fs, p, (f1 - 1) as nat, (f2 - 1) as nat);
                    },
                }
            }
        },
    }
}

/// The first folder with `id`, when there is one, stands where it is found.
proof fn lemma_find_folder_some(fs: Seq<FolderEntry>, id: i64)
    ensures
        find_folder(fs, id) matches Some(k) ==> 0 <= k < fs.len() && fs[k].id == id,
    decreases fs.len(),
{
    if fs.len() > 0 && fs[0].id != id {
        lemma_find_folder_some(fs.drop_first(), id);
    }
}

/// Following the folders up from `id` ends within `fuel` steps, and not
/// within one step fewer.
pub open spec fn ends_in_exactly(fs: Seq<FolderEntry>, id: i64, fuel: nat) -> bool {
    fuel >= 1 && path_up(fs, id, fuel) is Some && !(path_up(fs, id, (fuel - 1) as nat) is Some)
}

/// More fuel never hurts.
proof fn lemma_path_up_mono(fs: Seq<FolderEntry>, id: i64, f: nat, g: nat)
    requires
        f <= g,
        path_up(fs, id, f) is Some,
    ensures
        path_up(fs, id, g) is Some,
    decreases f,
{
    lemma_find_folder_some(fs, id);
    match find_folder(fs, id) {
        None => {},
        Some(k) => {
            match fs[k].parent_id {
                None => {},
                Some(p) => {
                    lemma_path_up_mono(fs, p, (f - 1) as nat, (g - 1) as nat);
                },
            }
        },
    }
}

/// A path that ends within some fuel ends within an exact, least fuel.
proof fn lemma_least_fuel(fs: Seq<FolderEntry>, id: i64, f: nat) -> (m: nat)
    requires
        path_up(fs, id, f) is Some,
    ensures
        m <= f,
        ends_in_exactly(fs, id, m),
    decreases f,
{
    if f >= 1 && path_up(fs, id, (f - 1) as nat) is Some {
        lemma_least_fuel(fs, id, (f - 1) as nat)
    } else {
        f
    }
}

/// The least fuel is one for each folder.
proof fn lemma_least_fuel_unique(fs: Seq<FolderEntry>, id: i64, m1: nat, m2: nat)
    requires
        ends_in_exactly(fs, id, m1),
        ends_in_exactly(fs, id, m2),
    ensures
        m1 == m2,
{
    if m1 < m2 {
        lemma_path_up_mono(fs, id, m1, (m2 - 1) as nat);
    } else if m2 < m1 {
        lemma_path_up_mono(fs, id, m2, (m1 - 1) as nat);
    }
}

/// The folders met on the way up from `id`, whose path ends in exactly `m`
/// steps: each is found, and from the `t`-th the path ends in exactly `m - t`.
proof fn lemma_chain(fs: Seq<FolderEntry>, id: i64, m: nat) -> (ids: Seq<i64>)
    requires
        ends_in_exactly(fs, id, m),
    ensures
        ids.len() == m - 1,
        forall|t: int|
            0 <= t < ids.len() ==> ends_in_exactly(fs, #[trigger] ids[t], (m - t) as nat) && find_folder(
                fs,
                ids[t],
            ) is Some,
    decreases m,
{
    lemma_find_folder_some(fs, id);
    if m == 1 {
        Seq::empty()
    } else {
        if find_folder(fs, id) is None || fs[find_folder(fs, id)->0].parent_id is None {
            lemma_path_up_mono(fs, id, 1, (m - 1) as nat);
            assert(false);
        }
        let k = find_folder(fs, id)->0;
        let p = fs[k].parent_id->0;
        let rest = lemma_chain(fs, p, (m - 1) as nat);
        let ids = seq![id] + rest;
        assert forall|t: int| 0 <= t < ids.len() implies ends_in_exactly(
            fs,
            #[trigger] ids[t],
            (m - t) as nat,
        ) && find_folder(fs, ids[t]) is Some by {
            if t > 0 {
                assert(ids[t] == rest[t - 1]);
            }
        }
        ids
    }
}

/// A path that ends at all ends within one step more than there are folders:
/// a longer way up would meet some folder twice.
proof fn lemma_path_up_bounded(fs: Seq<FolderEntry>, id: i64, f: nat)
    requires
        path_up(fs, id, f) is Some,
    ensures
        path_up(fs, id, fs.len() + 1) is Some,
{
    let m = lemma_least_fuel(fs, id, f);
    let ids = lemma_chain(fs, id, m);
    let ks = ids.map_values(|x: i64| find_folder(fs, x)->0);
    assert forall|a: int, b: int|
        0 <= a < ks.len() && 0 <= b < ks.len() && a != b implies ks[a] != ks[b] by {
        lemma_find_folder_some(fs, ids[a]);
        lemma_find_folder_some(fs, ids[b]);
        if ks[a] == ks[b] {
            assert(ids[a] == ids[b]);
            lemma_least_fuel_unique(fs, ids[a], (m - a) as nat, (m - b) as nat);
        }
    }
    assert(ks.no_duplicates());
    ks.unique_seq_to_set();
    vstd::set_lib::lemma_int_range(0, fs.len() as int);
    assert forall|x: int| ks.to_set().contains(x) implies vstd::set_lib::set_int_range(
        0,
        fs.len() as int,
    ).contains(x) by {
        let a = choose|a: int| 0 <= a < ks.len() && ks[a] == x;
        lemma_find_folder_some(fs, ids[a]);
    }
    vstd::set_lib::lemma_len_subset(ks.to_set(), vstd::set_lib::set_int_range(0, fs.len() as int));
    lemma_path_up_mono(fs, id, m, fs.len() + 1);
}

/// Whether following the folders up from `pid` ends, as [`path_ends`] says:
/// the condition on which [`group_label`] can name a group.
pub fn folder_chain_ends(folders: &Vec<FolderEntry>, pid: i64) -> (r: bool)
    ensures
        r == path_ends(folders@, pid),
{
    let ghost fs = folders@;
    let n = folders.len();
    let mut cur = pid;
    let mut t: usize = 0;
    loop
        invariant_except_break
            t <= n,
            forall|f: nat| #[trigger] path_up(fs, cur, f) is Some <==> path_up(fs, pid, (f + t) as nat) is Some,
        invariant
            fs == folders@,
            n == folders.len(),
        ensures
            forall|f: nat| #[trigger] path_up(fs, cur, f) is Some <==> path_up(fs, pid, (f + n + 1) as nat) is Some,
        decreases n - t,
    {
        let mut k: usize = 0;
        while k < folders.len()
            invariant
                k <= folders.len(),
                forall|j: int| 0 <= j < k ==> #[trigger] folders@[j].id != cur,
            ensures
                k <= folders.len(),
                forall|j: int| 0 <= j < k ==> #[trigger] folders@[j].id != cur,
                k < folders.len() ==> folders@[k as int].id == cur,
            decreases folders.len() - k,
        {
            if folders[k].id == cur {
                break;
            }
            k += 1;
        }
        proof {
            lemma_find_folder_at(fs, cur, k as int);
        }
        if k == folders.len() {
            proof {
                assert(path_up(fs, cur, 1) is Some);
                assert(path_up(fs, pid, (1 + t) as nat) is Some);
            }
            return true;
        }
        match folders[k].parent_id {
            None => {
                proof {
                    assert(path_up(fs, cur, 1) is Some);
                    assert(path_up(fs, pid, (1 + t) as nat) is Some);
                }
                return true;
            },
            Some(p) => {
                proof {
                    assert forall|f: nat| #[trigger] path_up(fs, p, f) is Some <==> path_up(
                        fs,
                        pid,
                        (f + (t + 1)) as nat,
                    ) is Some by {
                        assert(path_up(fs, cur, f + 1) is Some <==> path_up(fs, pid, ((f + 1) + t) as nat) is Some);
                        assert((f + 1) + t == f + (t + 1));
                    }
                }
                cur = p;
            },
        }
        if t == n {
            break;
        }
        t += 1;
    }
    proof {
        assert(path_up(fs, cur, 0) is None);
        assert(!(path_up(fs, pid, (0 + n + 1) as nat) is Some));
        assert(!(path_up(fs, pid, fs.len() + 1) is Some));
        if path_ends(fs, pid) {
            let f = choose|f: nat| #[trigger] path_up(fs, pid, f) is Some;
            lemma_path_up_bounded(fs, pid, f);
        }
    }
    false
}

/// The heading of a group of search results: the top of the library for
/// decks at the top, else the path of folders from the top down to the group's
/// folder, separated by ` / `.
pub open spec fn group_heading(fs: Seq<FolderEntry>, parent: Option<i64>, fuel: nat) -> Seq<char> {
    match parent {
        None => root_group_text(),
        Some(pid) => join(path_up(fs, pid, fuel)->0.reverse(), path_sep()),
    }
}

/// A path of folders that ends holds at least one name.
proof fn lemma_path_up_nonempty(fs: Seq<FolderEntry>, id: i64, fuel: nat)
    requires
        path_up(fs, id, fuel) is Some,
    ensures
        path_up(fs, id, fuel)->0.len() > 0,
{
}

/// The heading of a folder's group is that of the folder above it, then
/// ` / ` and the folder's own name.
pub proof fn lemma_child_heading(fs: Seq<FolderEntry>, k: int, fuel: nat)
    requires
        0 <= k < fs.len(),
        find_folder(fs, fs[k].id) == Some(k),
        fs[k].parent_id is Some,
        path_up(fs, fs[k].parent_id->0, fuel) is Some,
    ensures
        group_heading(fs, Some(fs[k].id), fuel + 1) == group_heading(fs, fs[k].parent_id, fuel)
            + path_sep() + fs[k].name@,
{
    let p = fs[k].parent_id->0;
    let rest = path_up(fs, p, fuel)->0;
    lemma_path_up_nonempty(fs, p, fuel);
    let whole = (seq![fs[k].name@] + rest).reverse();
    assert(whole =~= rest.reverse().push(fs[k].name@));
    assert(whole.drop_last() =~= rest.reverse());
    assert(whole.len() >= 2);
}

/// The heading of a group of search results, as [`group_heading`] says for
/// any fuel with which the path ends. Folders must not form a cycle above `parent`.
pub fn group_label(folders: &Vec<FolderEntry>, parent: Option<i64>) -> (r: String)
    requires
        parent matches Some(pid) ==> path_ends(folders@, pid),
    ensures
        parent is None ==> r@ == root_group_text(),
        forall|fuel: nat|
            #![trigger path_up(folders@, parent->0, fuel)]
            parent is Some && path_up(folders@, parent->0, fuel) is Some ==> r@ == group_heading(
                folders@,
                parent,
                fuel,
            ),
{
    let pid = match parent {
        None => {
            return "根目錄".to_string();
        },
        Some(p) => p,
    };
    let ghost fs = folders@;
    let ghost f0 = choose|fuel: nat| #[trigger] path_up(fs, pid, fuel) is Some;
    let ghost full = path_up(fs, pid, f0)->0;
    let ghost mut fuel = f0;
    let mut names: Vec<Vec<char>> = Vec::new();
    let mut cur = pid;
    loop
        invariant_except_break
            path_up(fs, cur, fuel) is Some,
            full == seq_views(names@) + path_up(fs, cur, fuel)->0,
        invariant
            fs == folders@,
            full == path_up(fs, pid, f0)->0,
        ensures
            full == seq_views(names@),
        decreases fuel,
    {
        let mut k: usize = 0;
        while k < folders.len()
            invariant
                k <= folders.len(),
                forall|j: int| 0 <= j < k ==> #[trigger] folders@[j].id != cur,
            ensures
                k <= folders.len(),
                forall|j: int| 0 <= j < k ==> #[trigger] folders@[j].id != cur,
                k < folders.len() ==> folders@[k as int].id == cur,
            decreases folders.len() - k,
        {
            if folders[k].id == cur {
                break;
            }
            k += 1;
        }
        proof {
            lemma_find_folder_at(fs, cur, k as int);
        }
        let ghost before = seq_views(names@);
        if k == folders.len() {
            let unknown = "未知資料夾".to_string();
            names.push(chars_of(unknown.as_str()));
            assert(seq_views(names@) =~= before.push(unknown_folder_text()));
            assert(before + seq![unknown_folder_text()] =~= before.push(unknown_folder_text()));
            break;
        }
        names.push(chars_of(folders[k].name.as_str()));
        assert(seq_views(names@) =~= before.push(folders@[k as int].name@));
        match folders[k].parent_id {
            None => {
                assert(before + seq![folders@[k as int].name@] =~= before.push(folders@[k as int].name@));
                break;
            },
            Some(p) => {
                proof {
                    let rest = path_up(fs, p, (fuel - 1) as nat)->0;
                    assert(before + (seq![folders@[k as int].name@] + rest) =~= before.push(
                        folders@[k as int].name@,
                    ) + rest);
                    fuel = (fuel - 1) as nat;
                }
                cur = p;
            },
        }
    }
    let mut rev: Vec<Vec<char>> = Vec::new();
    let mut i: usize = names.len();
    while i > 0
        invariant
            i <= names.len(),
            seq_views(rev@) == seq_views(names@).skip(i as int).reverse(),
        decreases i,
    {
        i -= 1;
        let ghost before = seq_views(rev@);
        rev.push(slice_chars(&names[i], 0, names[i].len()));
        assert(names@[i as int]@.subrange(0, names@[i as int]@.len() as int) =~= names@[i as int]@);
        assert(seq_views(rev@) =~= before.push(names@[i as int]@));
        assert(seq_views(names@).skip(i as int).reverse() =~= seq_views(names@).skip(i + 1).reverse().push(
            names@[i as int]@,
        ));
    }
    assert(seq_views(names@).skip(0) =~= seq_views(names@));
    let sep = vec![' ', '/', ' '];
    assert(sep@ == path_sep());
    let joined = join_chars(&rev, &sep);
    proof {
        assert forall|fuel2: nat| #[trigger] path_up(fs, pid, fuel2) is Some implies joined@
            == group_heading(fs, parent, fuel2) by {
            lemma_path_up_unique(fs, pid, f0, fuel2);
        }
    }
    string_of(&joined)
}

// ───────────────────────── navigation ─────────────────────────

/// Where "back" leads from a folder whose path from the top is `crumbs`:
/// `None` at the top of the library (where "back" leaves), else the folder
/// above (`Some(None)` for the top).
pub open spec fn back_target(crumbs: Seq<Deck>) -> Option<Option<i64>> {
    if crumbs.len() == 0 {
        None
    } else if crumbs.len() >= 2 {
        Some(Some(crumbs[crumbs.len() - 2].id))
    } else {
        Some(None)
    }
}

/// Where "back" leads, as [`back_target`] says.
pub fn back_from(crumbs: &Vec<Deck>) -> (r: Option<Option<i64>>)
    ensures
        r == back_target(crumbs@),
{
    if crumbs.len() == 0 {
        None
    } else if crumbs.len() >= 2 {
        Some(Some(crumbs[crumbs.len() - 2].id))
    } else {
        Some(None)
    }
}

} // verus!
