//! The pseudo-folder view of the flat MFS directory: names that contain
//! `:` are shown as folders, and `mfsls` lists one folder level at a time.

use vstd::prelude::*;
use crate::commands::skip_chars;
use crate::mfs::{FileEntry, Volume};
use crate::text::{chars_of, is_prefix, lex_less, lex_lt, lowercase, string_of};
use crate::text::{lemma_lex_asymmetric, lemma_lex_irreflexive, lemma_lex_total, lemma_lex_transitive};
use crate::glob::glob_match;
use crate::text::{decimal, pad_left, push_chars, push_decimal};
use crate::util::{
    date_short_text, fourcc, fourcc_char, glob_match_ci, lemma_date_columns, mac_date_short,
    starts_with_ci,
};

verus! {

/// One entry of a folder level: a file (its index in the directory and its
/// name within the level) or a pseudo-folder (its name and how many files
/// lie somewhere below it).
pub enum Item {
    File { index: usize, name: String },
    Folder { name: String, count: u32 },
}

/// The name an item is shown under.
pub open spec fn item_label(it: Item) -> Seq<char> {
    match it {
        Item::File { name, .. } => name@,
        Item::Folder { name, .. } => name@,
    }
}

/// The name an item is shown under.
pub fn item_name(it: &Item) -> (s: String)
    ensures
        s@ == item_label(*it),
{
    match it {
        Item::File { name, .. } => string_of(chars_of(name.as_str()).as_slice()),
        Item::Folder { name, .. } => string_of(chars_of(name.as_str()).as_slice()),
    }
}

/// What names in the folder `prefix` begin with: the prefix and a colon,
/// or nothing at the root.
pub open spec fn level_pfx(prefix: Seq<char>) -> Seq<char> {
    if prefix.len() == 0 {
        Seq::empty()
    } else {
        prefix + seq![':']
    }
}

/// Index of the first colon in `s`, or its length.
pub open spec fn colon_index(s: Seq<char>) -> int
    decreases s.len(),
{
    if s.len() == 0 {
        0
    } else if s[0] == ':' {
        0
    } else {
        1 + colon_index(s.drop_first())
    }
}

/// A name lies in the level with names beginning `pfx` (compared without
/// case).
pub open spec fn in_level(pfx: Seq<char>, name: Seq<char>) -> bool {
    is_prefix(lowercase(pfx), lowercase(name))
}

/// The part of a name after the level's beginning.
pub open spec fn rest_of(pfx: Seq<char>, name: Seq<char>) -> Seq<char> {
    skip_chars(name, pfx.len() as int)
}

/// The name lies deeper than the level: a colon follows.
pub open spec fn below_level(pfx: Seq<char>, name: Seq<char>) -> bool {
    colon_index(rest_of(pfx, name)) < rest_of(pfx, name).len()
}

/// The folder of the level that a deeper name lies in.
pub open spec fn component(pfx: Seq<char>, name: Seq<char>) -> Seq<char> {
    rest_of(pfx, name).take(colon_index(rest_of(pfx, name)))
}

/// The files among the first `n` that lie directly in the level, as their
/// index and their name within the level, in directory order.
pub open spec fn level_files(files: Seq<FileEntry>, pfx: Seq<char>, n: int) -> Seq<(int, Seq<char>)>
    decreases n,
{
    if n <= 0 {
        Seq::empty()
    } else {
        let before = level_files(files, pfx, n - 1);
        let name = files[n - 1].name@;
        if in_level(pfx, name) && !below_level(pfx, name) {
            before.push((n - 1, rest_of(pfx, name)))
        } else {
            before
        }
    }
}

/// The folders of the level among the first `n` files: by lower-cased
/// name, the name as first seen and the number of files below it.
pub open spec fn folder_map(files: Seq<FileEntry>, pfx: Seq<char>, n: int) -> Map<
    Seq<char>,
    (Seq<char>, nat),
>
    decreases n,
{
    if n <= 0 {
        Map::empty()
    } else {
        let m = folder_map(files, pfx, n - 1);
        let name = files[n - 1].name@;
        if in_level(pfx, name) && below_level(pfx, name) {
            let c = component(pfx, name);
            let k = lowercase(c);
            if m.dom().contains(k) {
                m.insert(k, (m[k].0, m[k].1 + 1))
            } else {
                m.insert(k, (c, 1))
            }
        } else {
            m
        }
    }
}

/// `fl` lists the map `m` as (key, name, count) in increasing key order.
pub open spec fn lists_map(fl: Seq<(Seq<char>, Seq<char>, nat)>, m: Map<Seq<char>, (Seq<char>, nat)>) -> bool {
    &&& forall|j: int|
        0 <= j < fl.len() ==> m.dom().contains(#[trigger] fl[j].0) && m[fl[j].0] == (
            fl[j].1,
            fl[j].2,
        )
    &&& forall|k: Seq<char>| #[trigger] m.dom().contains(k) ==> exists|j: int| 0 <= j < fl.len() && #[trigger] fl[j].0 == k
    &&& forall|j1: int, j2: int| 0 <= j1 < j2 < fl.len() ==> lex_lt(#[trigger] fl[j1].0, #[trigger] fl[j2].0)
}

/// The items of a level: its files in directory order, then its folders
/// as listed in `fl`.
pub open spec fn level_items_match(
    items: Seq<Item>,
    lf: Seq<(int, Seq<char>)>,
    fl: Seq<(Seq<char>, Seq<char>, nat)>,
) -> bool {
    &&& items.len() == lf.len() + fl.len()
    &&& forall|i: int|
        0 <= i < lf.len() ==> (#[trigger] items[i] matches Item::File { index, name } && index
            == lf[i].0 && name@ == lf[i].1)
    &&& forall|j: int|
        0 <= j < fl.len() ==> (#[trigger] items[lf.len() + j] matches Item::Folder { name, count }
            && name@ == fl[j].1 && count == fl[j].2)
}

/// The spec view of the folder list built so far.
pub open spec fn folders_view(v: Seq<(Vec<char>, String, u32)>) -> Seq<(Seq<char>, Seq<char>, nat)> {
    v.map_values(|e: (Vec<char>, String, u32)| (e.0@, e.1@, e.2 as nat))
}

/// The map after adding a file below folder `c` with lower-cased name `k`.
pub open spec fn map_add(m: Map<Seq<char>, (Seq<char>, nat)>, k: Seq<char>, c: Seq<char>) -> Map<
    Seq<char>,
    (Seq<char>, nat),
> {
    if m.dom().contains(k) {
        m.insert(k, (m[k].0, m[k].1 + 1))
    } else {
        m.insert(k, (c, 1))
    }
}

proof fn lemma_sorted_distinct(fl: Seq<(Seq<char>, Seq<char>, nat)>, a: int, b: int)
    requires
        forall|j1: int, j2: int|
            0 <= j1 < j2 < fl.len() ==> lex_lt(#[trigger] fl[j1].0, #[trigger] fl[j2].0),
        0 <= a < fl.len(),
        0 <= b < fl.len(),
        a != b,
    ensures
        fl[a].0 != fl[b].0,
{
    if a < b {
        lemma_lex_irreflexive(fl[a].0);
    } else {
        lemma_lex_irreflexive(fl[b].0);
    }
}

/// Adds a file below the folder `comp` (lower-cased: `key`) to the sorted
/// folder list.
fn insert_folder(
    folders: &mut Vec<(Vec<char>, String, u32)>,
    key: Vec<char>,
    comp: String,
    Ghost(m): Ghost<Map<Seq<char>, (Seq<char>, nat)>>,
    Ghost(limit): Ghost<nat>,
)
    requires
        lists_map(folders_view(old(folders)@), m),
        limit < u32::MAX,
        forall|j: int| 0 <= j < old(folders)@.len() ==> #[trigger] old(folders)@[j].2 <= limit,
    ensures
        lists_map(folders_view(final(folders)@), map_add(m, key@, comp@)),
        forall|j: int| 0 <= j < final(folders)@.len() ==> #[trigger] final(folders)@[j].2 <= limit + 1,
{
    let ghost v = folders_view(folders@);
    let mut j: usize = 0;
    while j < folders.len() && lex_less(folders[j].0.as_slice(), key.as_slice())
        invariant
            j <= folders.len(),
            v == folders_view(folders@),
            forall|t: int| 0 <= t < j ==> lex_lt(#[trigger] v[t].0, key@),
        decreases folders.len() - j,
    {
        j += 1;
    }
    if j < folders.len() && !lex_less(key.as_slice(), folders[j].0.as_slice()) {
        proof {
            lemma_lex_total(v[j as int].0, key@);
        }
        assert(v[j as int].0 == key@);
        let (k, nm, c) = folders.remove(j);
        folders.insert(j, (k, nm, c + 1));
        proof {
            let nv = folders_view(folders@);
            let m2 = map_add(m, key@, comp@);
            assert(m.dom().contains(key@));
            assert(nv =~= v.update(j as int, (v[j as int].0, v[j as int].1, v[j as int].2 + 1)));
            assert forall|t: int| 0 <= t < nv.len() implies m2.dom().contains(#[trigger] nv[t].0)
                && m2[nv[t].0] == (nv[t].1, nv[t].2) by {
                if t != j {
                    lemma_sorted_distinct(v, t, j as int);
                }
            }
            assert forall|k2: Seq<char>| #[trigger] m2.dom().contains(k2) implies exists|t: int|
                0 <= t < nv.len() && #[trigger] nv[t].0 == k2 by {
                assert(m.dom().contains(k2));
                let t = choose|t: int| 0 <= t < v.len() && #[trigger] v[t].0 == k2;
                assert(nv[t].0 == k2);
            }
        }
    } else {
        let ghost absent = !m.dom().contains(key@);
        proof {
            if j < folders.len() {
                lemma_lex_total(v[j as int].0, key@);
                lemma_lex_asymmetric(key@, v[j as int].0);
            }
            if m.dom().contains(key@) {
                let t = choose|t: int| 0 <= t < v.len() && #[trigger] v[t].0 == key@;
                if t < j {
                    lemma_lex_irreflexive(key@);
                } else {
                    if t > j {
                        lemma_lex_transitive(key@, v[j as int].0, v[t].0);
                    }
                    lemma_lex_irreflexive(key@);
                }
            }
        }
        assert(absent);
        let ghost kv = key@;
        folders.insert(j, (key, comp, 1));
        proof {
            let nv = folders_view(folders@);
            let m2 = map_add(m, kv, comp@);
            assert(nv =~= v.insert(j as int, (kv, comp@, 1nat)));
            assert forall|t: int| 0 <= t < nv.len() implies m2.dom().contains(#[trigger] nv[t].0)
                && m2[nv[t].0] == (nv[t].1, nv[t].2) by {
                if t < j {
                    assert(nv[t] == v[t]);
                    lemma_lex_irreflexive(kv);
                } else if t > j {
                    assert(nv[t] == v[t - 1]);
                    if t - 1 > j {
                        lemma_lex_transitive(kv, v[j as int].0, v[t - 1].0);
                    }
                    lemma_lex_irreflexive(kv);
                }
            }
            assert forall|k2: Seq<char>| #[trigger] m2.dom().contains(k2) implies exists|t: int|
                0 <= t < nv.len() && #[trigger] nv[t].0 == k2 by {
                if k2 == kv {
                    assert(nv[j as int].0 == k2);
                } else {
                    assert(m.dom().contains(k2));
                    let t = choose|t: int| 0 <= t < v.len() && #[trigger] v[t].0 == k2;
                    if t < j {
                        assert(nv[t].0 == k2);
                    } else {
                        assert(nv[t + 1].0 == k2);
                    }
                }
            }
            assert forall|j1: int, j2: int| 0 <= j1 < j2 < nv.len() implies lex_lt(
                #[trigger] nv[j1].0,
                #[trigger] nv[j2].0,
            ) by {
                if j1 < j && j2 < j {
                } else if j1 < j && j2 == j {
                } else if j1 < j && j2 > j {
                    if j2 - 1 > j {
                        lemma_lex_transitive(kv, v[j as int].0, v[j2 - 1].0);
                    }
                    lemma_lex_transitive(v[j1].0, kv, v[j2 - 1].0);
                } else if j1 == j {
                    if j2 - 1 > j {
                        lemma_lex_transitive(kv, v[j as int].0, v[j2 - 1].0);
                    }
                } else {
                    assert(nv[j1] == v[j1 - 1]);
                    assert(nv[j2] == v[j2 - 1]);
                }
            }
        }
    }
}

fn colon_index_exec(s: &Vec<char>) -> (c: usize)
    ensures
        c == colon_index(s@),
        c <= s.len(),
{
    let mut c: usize = 0;
    assert(s@.skip(0) =~= s@);
    while c < s.len() && s[c] != ':'
        invariant
            c <= s.len(),
            colon_index(s@) == c + colon_index(s@.skip(c as int)),
        decreases s.len() - c,
    {
        assert(s@.skip(c as int).drop_first() =~= s@.skip(c + 1));
        c += 1;
    }
    proof {
        if c < s.len() {
            assert(s@.skip(c as int)[0] == ':');
        } else {
            assert(s@.skip(c as int).len() == 0);
        }
    }
    c
}

fn chars_range(s: &Vec<char>, from: usize, to: usize) -> (r: Vec<char>)
    requires
        from <= to <= s.len(),
    ensures
        r@ == s@.subrange(from as int, to as int),
{
    let mut r = Vec::new();
    let mut k = from;
    while k < to
        invariant
            from <= k <= to <= s.len(),
            r@ =~= s@.subrange(from as int, k as int),
        decreases to - k,
    {
        r.push(s[k]);
        k += 1;
    }
    r
}

/// Entries visible at the given prefix level: real files plus one
/// pseudo-folder per distinct next path component (compared without
/// case, named as first seen), folders in order of their lower-cased
/// names.
pub fn level_items(vol: &Volume, prefix: &str) -> (items: Vec<Item>)
    requires
        vol.files.len() < u32::MAX,
    ensures
        exists|fl: Seq<(Seq<char>, Seq<char>, nat)>|
            lists_map(fl, folder_map(vol.files@, level_pfx(prefix@), vol.files.len() as int))
                && level_items_match(
                items@,
                level_files(vol.files@, level_pfx(prefix@), vol.files.len() as int),
                fl,
            ),
{
    let mut pc = chars_of(prefix);
    if pc.len() > 0 {
        pc.push(':');
    }
    let ghost pfx = level_pfx(prefix@);
    assert(pc@ =~= pfx);
    let pfx_s = string_of(pc.as_slice());
    let n = vol.files.len();
    let mut files_part: Vec<Item> = Vec::new();
    let mut folders: Vec<(Vec<char>, String, u32)> = Vec::new();
    let mut i: usize = 0;
    while i < n
        invariant
            n == vol.files.len(),
            n < u32::MAX,
            i <= n,
            pc@ == pfx,
            pfx_s@ == pfx,
            lists_map(folders_view(folders@), folder_map(vol.files@, pfx, i as int)),
            forall|j: int| 0 <= j < folders@.len() ==> #[trigger] folders@[j].2 <= i,
            files_part@.len() == level_files(vol.files@, pfx, i as int).len(),
            forall|t: int|
                0 <= t < files_part@.len() ==> (#[trigger] files_part@[t] matches Item::File {
                    index,
                    name,
                } && index == level_files(vol.files@, pfx, i as int)[t].0 && name@
                    == level_files(vol.files@, pfx, i as int)[t].1),
        decreases n - i,
    {
        let ghost name = vol.files@[i as int].name@;
        let ghost lf = level_files(vol.files@, pfx, i as int);
        if starts_with_ci(vol.files[i].name.as_str(), pfx_s.as_str()) {
            let nc = chars_of(vol.files[i].name.as_str());
            let rest = if pc.len() <= nc.len() {
                chars_range(&nc, pc.len(), nc.len())
            } else {
                Vec::new()
            };
            assert(rest@ =~= rest_of(pfx, name));
            let ci = colon_index_exec(&rest);
            if ci == rest.len() {
                files_part.push(Item::File { index: i, name: string_of(rest.as_slice()) });
                assert(level_files(vol.files@, pfx, i + 1) == lf.push((i as int, rest@)));
            } else {
                let comp = chars_range(&rest, 0, ci);
                assert(comp@ =~= component(pfx, name));
                let comp_s = string_of(comp.as_slice());
                let key = chars_of(comp_s.as_str().to_lowercase().as_str());
                insert_folder(
                    &mut folders,
                    key,
                    comp_s,
                    Ghost(folder_map(vol.files@, pfx, i as int)),
                    Ghost(i as nat),
                );
            }
        }
        i += 1;
    }
    let ghost fl = folders_view(folders@);
    let ghost lf = level_files(vol.files@, pfx, n as int);
    let mut items = files_part;
    let mut k: usize = 0;
    while k < folders.len()
        invariant
            k <= folders.len(),
            fl == folders_view(folders@),
            items@.len() == lf.len() + k,
            forall|t: int|
                0 <= t < lf.len() ==> (#[trigger] items@[t] matches Item::File { index, name }
                    && index == lf[t].0 && name@ == lf[t].1),
            forall|j: int|
                0 <= j < k ==> (#[trigger] items@[lf.len() + j] matches Item::Folder {
                    name,
                    count,
                } && name@ == fl[j].1 && count == fl[j].2),
        decreases folders.len() - k,
    {
        let name = string_of(chars_of(folders[k].1.as_str()).as_slice());
        items.push(Item::Folder { name, count: folders[k].2 });
        assert(items@[lf.len() + k as int] matches Item::Folder { name, count });
        k += 1;
    }
    assert(level_items_match(items@, lf, fl));
    items
}

proof fn lemma_level_files_index(files: Seq<FileEntry>, pfx: Seq<char>, n: int)
    requires
        n <= files.len(),
    ensures
        forall|t: int|
            0 <= t < level_files(files, pfx, n).len() ==> 0 <= #[trigger] level_files(
                files,
                pfx,
                n,
            )[t].0 < n,
    decreases n,
{
    if n > 0 {
        lemma_level_files_index(files, pfx, n - 1);
        let before = level_files(files, pfx, n - 1);
        assert forall|t: int|
            0 <= t < level_files(files, pfx, n).len() implies 0 <= #[trigger] level_files(
            files,
            pfx,
            n,
        )[t].0 < n by {
            if t < before.len() {
                assert(level_files(files, pfx, n)[t] == before[t]);
            }
        }
    }
}

// ------------------------------------------------------------------- ls

/// The key items are listed by: the lower-cased name they are shown under.
pub open spec fn item_key(it: Item) -> Seq<char> {
    lowercase(item_label(it))
}

/// Pattern `p` shows an item named `label`: it matches the name, or the
/// name and a colon (so that `foo:` selects folder `foo`).
pub open spec fn pattern_shows(p: Seq<char>, label: Seq<char>) -> bool {
    glob_match(lowercase(p), lowercase(label)) || glob_match(
        lowercase(p),
        lowercase(label + seq![':']),
    )
}

/// With no patterns every item is shown, else those some pattern shows.
pub open spec fn shown(pats: Seq<Seq<char>>, it: Item) -> bool {
    pats.len() == 0 || exists|i: int| 0 <= i < pats.len() && #[trigger] pattern_shows(pats[i], item_label(it))
}

/// The items shown, in order.
pub open spec fn shown_items(items: Seq<Item>, pats: Seq<Seq<char>>) -> Seq<Item>
    decreases items.len(),
{
    if items.len() == 0 {
        items
    } else if shown(pats, items.last()) {
        shown_items(items.drop_last(), pats).push(items.last())
    } else {
        shown_items(items.drop_last(), pats)
    }
}

/// The characters of each of the strings.
pub open spec fn pattern_texts(ps: Seq<String>) -> Seq<Seq<char>> {
    ps.map_values(|s: String| s@)
}

/// The items of `s` with key `k`, in order.
pub open spec fn with_key(s: Seq<Item>, k: Seq<char>) -> Seq<Item>
    decreases s.len(),
{
    if s.len() == 0 {
        s
    } else if item_key(s.last()) == k {
        with_key(s.drop_last(), k).push(s.last())
    } else {
        with_key(s.drop_last(), k)
    }
}

/// Keys never decrease along `s`.
pub open spec fn key_sorted(s: Seq<Item>) -> bool {
    forall|i: int, j: int| 0 <= i < j < s.len() ==> !lex_lt(item_key(#[trigger] s[j]), item_key(#[trigger] s[i]))
}

/// `y` is `x` sorted stably by key: sorted, and with the items of each key
/// in the order they have in `x`.
pub open spec fn stable_sorted(x: Seq<Item>, y: Seq<Item>) -> bool {
    &&& key_sorted(y)
    &&& forall|k: Seq<char>| #[trigger] with_key(y, k) == with_key(x, k)
}

proof fn lemma_with_key_concat(a: Seq<Item>, b: Seq<Item>, k: Seq<char>)
    ensures
        with_key(a + b, k) == with_key(a, k) + with_key(b, k),
    decreases b.len(),
{
    if b.len() == 0 {
        assert(a + b =~= a);
        assert(with_key(a, k) + with_key(b, k) =~= with_key(a, k));
    } else {
        lemma_with_key_concat(a, b.drop_last(), k);
        assert((a + b).drop_last() =~= a + b.drop_last());
        assert((a + b).last() == b.last());
        if item_key(b.last()) == k {
            assert(with_key(a, k) + with_key(b.drop_last(), k).push(b.last()) =~= (with_key(a, k)
                + with_key(b.drop_last(), k)).push(b.last()));
        }
    }
}

proof fn lemma_with_key_absent(s: Seq<Item>, k: Seq<char>)
    requires
        forall|i: int| 0 <= i < s.len() ==> item_key(#[trigger] s[i]) != k,
    ensures
        with_key(s, k) == Seq::<Item>::empty(),
    decreases s.len(),
{
    if s.len() > 0 {
        assert(item_key(s[s.len() - 1]) != k);
        lemma_with_key_absent(s.drop_last(), k);
    }
}

/// A file item names one of `n` files.
pub open spec fn item_ok(it: Item, n: int) -> bool {
    it matches Item::File { index, .. } ==> index < n
}

/// Inserts `e` with key `ke` into the stably sorted `y` after every item
/// whose key is not greater.
fn insert_sorted(y: &mut Vec<Item>, keys: &mut Vec<Vec<char>>, e: Item, ke: Vec<char>, Ghost(n): Ghost<int>)
    requires
        item_ok(e, n),
        forall|j: int| 0 <= j < old(y)@.len() ==> item_ok(#[trigger] old(y)@[j], n),
        old(keys)@.len() == old(y)@.len(),
        forall|j: int| 0 <= j < old(y)@.len() ==> #[trigger] old(keys)@[j]@ == item_key(old(y)@[j]),
        key_sorted(old(y)@),
        ke@ == item_key(e),
    ensures
        forall|j: int| 0 <= j < final(y)@.len() ==> item_ok(#[trigger] final(y)@[j], n),
        final(keys)@.len() == final(y)@.len(),
        forall|j: int| 0 <= j < final(y)@.len() ==> #[trigger] final(keys)@[j]@ == item_key(final(y)@[j]),
        key_sorted(final(y)@),
        forall|k: Seq<char>| #[trigger] with_key(final(y)@, k) == if item_key(e) == k {
            with_key(old(y)@, k).push(e)
        } else {
            with_key(old(y)@, k)
        },
{
    let ghost y0 = y@;
    let mut j: usize = 0;
    while j < y.len() && !lex_less(ke.as_slice(), keys[j].as_slice())
        invariant
            y@ == y0,
            keys@.len() == y0.len(),
            forall|t: int| 0 <= t < y0.len() ==> #[trigger] keys@[t]@ == item_key(y0[t]),
            j <= y0.len(),
            forall|t: int| 0 <= t < j ==> !lex_lt(ke@, #[trigger] item_key(y0[t])),
        decreases y.len() - j,
    {
        j += 1;
    }
    let ghost kx = ke@;
    y.insert(j, e);
    keys.insert(j, ke);
    proof {
        let ny = y@;
        assert(ny =~= y0.insert(j as int, e));
        assert forall|t: int| 0 <= t < ny.len() implies item_ok(#[trigger] ny[t], n) by {
            if t < j {
                assert(ny[t] == y0[t]);
            } else if t > j {
                assert(ny[t] == y0[t - 1]);
            }
        }
        // every item from position j on has a greater key
        assert forall|t: int| j <= t < y0.len() implies lex_lt(kx, #[trigger] item_key(y0[t])) by {
            if t > j {
                lemma_lex_total(item_key(y0[j as int]), item_key(y0[t]));
                if item_key(y0[t]) != item_key(y0[j as int]) {
                    assert(!lex_lt(item_key(y0[t]), item_key(y0[j as int])));
                    lemma_lex_transitive(kx, item_key(y0[j as int]), item_key(y0[t]));
                }
            }
        }
        assert forall|t: int| 0 <= t < j implies !lex_lt(kx, #[trigger] item_key(y0[t])) by {}
        assert forall|a: int, b: int| 0 <= a < b < ny.len() implies !lex_lt(
            item_key(#[trigger] ny[b]),
            item_key(#[trigger] ny[a]),
        ) by {
            if b < j {
                assert(ny[a] == y0[a] && ny[b] == y0[b]);
            } else if b == j {
                assert(ny[a] == y0[a]);
                lemma_lex_total(kx, item_key(y0[a]));
            } else if a < j {
                assert(ny[a] == y0[a] && ny[b] == y0[b - 1]);
                lemma_lex_total(kx, item_key(y0[a]));
                if item_key(y0[a]) != kx {
                    lemma_lex_transitive(item_key(y0[a]), kx, item_key(y0[b - 1]));
                }
                lemma_lex_asymmetric(item_key(y0[a]), item_key(y0[b - 1]));
            } else if a == j {
                assert(ny[b] == y0[b - 1]);
                lemma_lex_asymmetric(kx, item_key(y0[b - 1]));
            } else {
                assert(ny[a] == y0[a - 1] && ny[b] == y0[b - 1]);
            }
        }
        let left = y0.take(j as int);
        let right = y0.skip(j as int);
        assert(y0 =~= left + right);
        assert(ny =~= left.push(e) + right);
        assert forall|k: Seq<char>| #[trigger] with_key(ny, k) == if kx == k {
            with_key(y0, k).push(e)
        } else {
            with_key(y0, k)
        } by {
            lemma_with_key_concat(left.push(e), right, k);
            lemma_with_key_concat(left, right, k);
            assert(left.push(e).drop_last() =~= left);
            if kx == k {
                assert forall|i: int| 0 <= i < right.len() implies item_key(#[trigger] right[i]) != k by {
                    assert(right[i] == y0[j + i]);
                    lemma_lex_irreflexive(kx);
                }
                lemma_with_key_absent(right, k);
                assert(with_key(left, k).push(e) + Seq::<Item>::empty() =~= with_key(left, k).push(e));
                assert(with_key(left, k) + Seq::<Item>::empty() =~= with_key(left, k));
            }
        }
    }
}

/// `n` spaces.
pub open spec fn spaces(n: nat) -> Seq<char> {
    Seq::new(n, |_i: int| ' ')
}

/// A type or creator code as `mfsls -l` shows it.
pub open spec fn code_text(code: [u8; 4]) -> Seq<char> {
    code@.map_values(|b: u8| fourcc_char(b))
}

/// The line `mfsls` prints for an item: its name (folders with a colon);
/// in the long form files show locked flag, type/creator, resource and
/// data fork lengths and modification date, folders their file count.
pub open spec fn item_line(files: Seq<FileEntry>, long: bool, it: Item) -> Seq<char> {
    match it {
        Item::File { index, name } => if long {
            let f = files[index as int];
            seq![if f.locked { 'F' } else { 'f' }] + spaces(2) + code_text(f.type_code) + seq!['/']
                + code_text(f.creator) + spaces(1) + pad_left(decimal(f.rsrc_len as nat), 9, ' ')
                + spaces(1) + pad_left(decimal(f.data_len as nat), 9, ' ') + spaces(1)
                + date_short_text(f.mod_date) + spaces(1) + name@
        } else {
            name@
        },
        Item::Folder { name, count } => if long {
            seq!['d'] + spaces(12) + pad_left(decimal(count as nat), 9, ' ') + spaces(1) + spaces(9)
                + spaces(1) + spaces(17) + spaces(1) + name@ + seq![':']
        } else {
            name@ + seq![':']
        },
    }
}

fn push_spaces(s: &mut String, n: usize)
    ensures
        final(s)@ == old(s)@ + spaces(n as nat),
{
    let ghost o = s@;
    let mut k: usize = 0;
    while k < n
        invariant
            k <= n,
            s@ =~= o + spaces(k as nat),
        decreases n - k,
    {
        s.push(' ');
        k += 1;
    }
}

fn push_string(s: &mut String, t: &String)
    ensures
        final(s)@ == old(s)@ + t@,
{
    push_chars(s, chars_of(t.as_str()).as_slice());
}

fn line_of(files: &Vec<FileEntry>, long: bool, it: &Item) -> (s: String)
    requires
        it matches Item::File { index, .. } ==> index < files.len(),
    ensures
        s@ == item_line(files@, long, *it),
{
    let mut s = String::new();
    match it {
        Item::File { index, name } => {
            if long {
                let f = &files[*index];
                s.push(if f.locked { 'F' } else { 'f' });
                push_spaces(&mut s, 2);
                push_string(&mut s, &fourcc(&f.type_code));
                s.push('/');
                push_string(&mut s, &fourcc(&f.creator));
                push_spaces(&mut s, 1);
                push_decimal(&mut s, f.rsrc_len as u64, 9, ' ');
                push_spaces(&mut s, 1);
                push_decimal(&mut s, f.data_len as u64, 9, ' ');
                push_spaces(&mut s, 1);
                push_string(&mut s, &mac_date_short(f.mod_date));
                push_spaces(&mut s, 1);
                push_string(&mut s, name);
            } else {
                push_string(&mut s, name);
            }
        },
        Item::Folder { name, count } => {
            if long {
                s.push('d');
                push_spaces(&mut s, 12);
                push_decimal(&mut s, *count as u64, 9, ' ');
                push_spaces(&mut s, 1);
                push_spaces(&mut s, 9);
                push_spaces(&mut s, 1);
                push_spaces(&mut s, 17);
                push_spaces(&mut s, 1);
                push_string(&mut s, name);
                s.push(':');
            } else {
                push_string(&mut s, name);
                s.push(':');
            }
        },
    }
    assert(s@ =~= item_line(files@, long, *it));
    s
}

/// Whether one of the patterns shows an item named `label`.
fn any_pattern_shows(patterns: &[String], label: &String) -> (r: bool)
    ensures
        r == exists|i: int|
            0 <= i < patterns@.len() && #[trigger] pattern_shows(patterns@[i]@, label@),
{
    let mut lc = chars_of(label.as_str());
    lc.push(':');
    let with_colon = string_of(lc.as_slice());
    assert(with_colon@ =~= label@ + seq![':']);
    let mut i: usize = 0;
    while i < patterns.len()
        invariant
            i <= patterns.len(),
            with_colon@ == label@ + seq![':'],
            forall|t: int| 0 <= t < i ==> !#[trigger] pattern_shows(patterns@[t]@, label@),
        decreases patterns.len() - i,
    {
        if glob_match_ci(patterns[i].as_str(), label.as_str()) || glob_match_ci(
            patterns[i].as_str(),
            with_colon.as_str(),
        ) {
            assert(pattern_shows(patterns@[i as int]@, label@));
            return true;
        }
        i += 1;
    }
    false
}

/// The lines `mfsls` prints for the folder level `prefix`: the level's
/// items that the patterns show (all without patterns), sorted stably by
/// lower-cased name, each as its short or long line.
pub fn ls_lines(vol: &Volume, prefix: &str, long: bool, patterns: &[String]) -> (lines: Vec<
    String,
>)
    requires
        vol.files.len() < u32::MAX,
    ensures
        exists|fl: Seq<(Seq<char>, Seq<char>, nat)>, x: Seq<Item>, y: Seq<Item>|
            #![trigger level_items_match(x, level_files(vol.files@, level_pfx(prefix@), vol.files.len() as int), fl), stable_sorted(shown_items(x, pattern_texts(patterns@)), y)]
            {
                &&& lists_map(
                    fl,
                    folder_map(vol.files@, level_pfx(prefix@), vol.files.len() as int),
                )
                &&& level_items_match(
                    x,
                    level_files(vol.files@, level_pfx(prefix@), vol.files.len() as int),
                    fl,
                )
                &&& stable_sorted(shown_items(x, pattern_texts(patterns@)), y)
                &&& lines@.len() == y.len()
                &&& forall|i: int|
                    0 <= i < y.len() ==> #[trigger] lines@[i]@ == item_line(vol.files@, long, y[i])
            },
{
    let items = level_items(vol, prefix);
    let ghost x = items@;
    let ghost pats = pattern_texts(patterns@);
    let ghost lf = level_files(vol.files@, level_pfx(prefix@), vol.files.len() as int);
    proof {
        lemma_level_files_index(vol.files@, level_pfx(prefix@), vol.files.len() as int);
    }
    let ghost fl = choose|fl: Seq<(Seq<char>, Seq<char>, nat)>|
        lists_map(fl, folder_map(vol.files@, level_pfx(prefix@), vol.files.len() as int))
            && level_items_match(x, lf, fl);
    // Every file item names a file of the volume.
    let ghost nf = vol.files.len() as int;
    assert forall|t: int| 0 <= t < x.len() implies item_ok(#[trigger] x[t], nf) by {
        if t < lf.len() {
            assert(x[t] matches Item::File { index, .. } && index == lf[t].0);
        } else {
            assert(x[lf.len() + (t - lf.len())] matches Item::Folder { .. });
        }
    }
    // Keep the items the patterns show.
    let n_items = items.len();
    let mut src = items;
    let mut kept: Vec<Item> = Vec::new();
    let mut i: usize = 0;
    while src.len() > 0
        invariant
            i + src@.len() == x.len(),
            x.len() == n_items,
            src@ == x.skip(i as int),
            kept@ == shown_items(x.take(i as int), pats),
            pats == pattern_texts(patterns@),
            forall|t: int| 0 <= t < x.len() ==> item_ok(#[trigger] x[t], nf),
            forall|t: int| 0 <= t < kept@.len() ==> item_ok(#[trigger] kept@[t], nf),
        decreases src.len(),
    {
        let it = src.remove(0);
        assert(it == x[i as int]);
        let keep = if patterns.len() == 0 {
            true
        } else {
            let label = item_name(&it);
            let r = any_pattern_shows(patterns, &label);
            proof {
                if r {
                    let t = choose|t: int|
                        0 <= t < patterns@.len() && #[trigger] pattern_shows(patterns@[t]@, label@);
                    assert(pattern_shows(pats[t], item_label(it)));
                } else {
                    assert forall|t: int| 0 <= t < pats.len() implies !#[trigger] pattern_shows(
                        pats[t],
                        item_label(it),
                    ) by {
                        assert(pats[t] == patterns@[t]@);
                    }
                }
            }
            r
        };
        assert(keep == shown(pats, it));
        assert(x.take(i + 1).drop_last() =~= x.take(i as int));
        if keep {
            kept.push(it);
        }
        assert(src@ =~= x.skip(i + 1));
        i += 1;
    }
    assert(x.take(x.len() as int) =~= x);
    let ghost sx = kept@;
    // Sort them stably by lower-cased name.
    let n_kept = kept.len();
    let mut src2 = kept;
    let mut y: Vec<Item> = Vec::new();
    let mut keys: Vec<Vec<char>> = Vec::new();
    let mut j: usize = 0;
    while src2.len() > 0
        invariant
            j + src2@.len() == sx.len(),
            sx.len() == n_kept,
            src2@ == sx.skip(j as int),
            forall|t: int| 0 <= t < sx.len() ==> item_ok(#[trigger] sx[t], nf),
            forall|t: int| 0 <= t < y@.len() ==> item_ok(#[trigger] y@[t], nf),
            keys@.len() == y@.len(),
            forall|t: int| 0 <= t < y@.len() ==> #[trigger] keys@[t]@ == item_key(y@[t]),
            key_sorted(y@),
            forall|k: Seq<char>| #[trigger] with_key(y@, k) == with_key(sx.take(j as int), k),
        decreases src2.len(),
    {
        let it = src2.remove(0);
        assert(it == sx[j as int]);
        let label = item_name(&it);
        let key = chars_of(label.as_str().to_lowercase().as_str());
        insert_sorted(&mut y, &mut keys, it, key, Ghost(nf));
        assert(sx.take(j + 1).drop_last() =~= sx.take(j as int));
        assert(src2@ =~= sx.skip(j + 1));
        j += 1;
    }
    assert(sx.take(sx.len() as int) =~= sx);
    // One line per item.
    let mut lines: Vec<String> = Vec::new();
    let mut k: usize = 0;
    while k < y.len()
        invariant
            k <= y.len(),
            nf == vol.files.len(),
            forall|t: int| 0 <= t < y@.len() ==> item_ok(#[trigger] y@[t], nf),
            lines@.len() == k,
            forall|t: int| 0 <= t < k ==> #[trigger] lines@[t]@ == item_line(vol.files@, long, y@[t]),
        decreases y.len() - k,
    {
        assert(item_ok(y@[k as int], nf));
        lines.push(line_of(&vol.files, long, &y[k]));
        k += 1;
    }
    assert(stable_sorted(shown_items(x, pats), y@));
    lines
}

// ------------------------------------------------------------ uniqueness

proof fn lemma_lists_map_tail(fl: Seq<(Seq<char>, Seq<char>, nat)>, m: Map<Seq<char>, (Seq<char>, nat)>)
    requires
        fl.len() > 0,
        lists_map(fl, m),
    ensures
        lists_map(fl.drop_first(), m.remove(fl[0].0)),
{
    let k = fl[0].0;
    let t = fl.drop_first();
    let m2 = m.remove(k);
    assert forall|j: int| 0 <= j < t.len() implies m2.dom().contains(#[trigger] t[j].0) && m2[t[j].0]
        == (t[j].1, t[j].2) by {
        assert(t[j] == fl[j + 1]);
        assert(lex_lt(fl[0].0, fl[j + 1].0));
        lemma_lex_irreflexive(k);
    }
    assert forall|k2: Seq<char>| #[trigger] m2.dom().contains(k2) implies exists|j: int|
        0 <= j < t.len() && #[trigger] t[j].0 == k2 by {
        assert(m.dom().contains(k2));
        let j = choose|j: int| 0 <= j < fl.len() && #[trigger] fl[j].0 == k2;
        assert(j != 0);
        assert(t[j - 1].0 == k2);
    }
    assert forall|j1: int, j2: int| 0 <= j1 < j2 < t.len() implies lex_lt(
        #[trigger] t[j1].0,
        #[trigger] t[j2].0,
    ) by {
        assert(t[j1] == fl[j1 + 1] && t[j2] == fl[j2 + 1]);
    }
}

/// A map has only one listing in increasing key order.
pub proof fn lemma_lists_map_unique(
    f1: Seq<(Seq<char>, Seq<char>, nat)>,
    f2: Seq<(Seq<char>, Seq<char>, nat)>,
    m: Map<Seq<char>, (Seq<char>, nat)>,
)
    requires
        lists_map(f1, m),
        lists_map(f2, m),
    ensures
        f1 == f2,
    decreases f1.len(),
{
    if f1.len() == 0 {
        if f2.len() > 0 {
            assert(m.dom().contains(f2[0].0));
        }
        assert(f1 =~= f2);
    } else {
        assert(m.dom().contains(f1[0].0));
        assert(f2.len() > 0);
        let k1 = f1[0].0;
        let k2 = f2[0].0;
        if k1 != k2 {
            let j = choose|j: int| 0 <= j < f2.len() && #[trigger] f2[j].0 == k1;
            let i = choose|i: int| 0 <= i < f1.len() && #[trigger] f1[i].0 == k2;
            assert(j > 0 && i > 0);
            assert(lex_lt(k2, k1));
            assert(lex_lt(k1, k2));
            lemma_lex_asymmetric(k1, k2);
        }
        assert(f1[0] == f2[0]);
        lemma_lists_map_tail(f1, m);
        lemma_lists_map_tail(f2, m);
        lemma_lists_map_unique(f1.drop_first(), f2.drop_first(), m.remove(k1));
        assert(f1 =~= seq![f1[0]] + f1.drop_first());
        assert(f2 =~= seq![f2[0]] + f2.drop_first());
    }
}

proof fn lemma_with_key_member(s: Seq<Item>, k: Seq<char>)
    requires
        with_key(s, k).len() > 0,
    ensures
        exists|i: int| 0 <= i < s.len() && item_key(#[trigger] s[i]) == k,
    decreases s.len(),
{
    if s.len() > 0 {
        if item_key(s.last()) == k {
            assert(item_key(s[s.len() - 1]) == k);
        } else {
            lemma_with_key_member(s.drop_last(), k);
            let i = choose|i: int| 0 <= i < s.drop_last().len() && item_key(#[trigger] s.drop_last()[i]) == k;
            assert(s[i] == s.drop_last()[i]);
        }
    }
}

proof fn lemma_sorted_same_classes(y1: Seq<Item>, y2: Seq<Item>)
    requires
        key_sorted(y1),
        key_sorted(y2),
        forall|k: Seq<char>| #[trigger] with_key(y1, k) == with_key(y2, k),
    ensures
        y1 == y2,
    decreases y1.len(),
{
    if y1.len() == 0 {
        if y2.len() > 0 {
            let k = item_key(y2.last());
            assert(with_key(y2, k).len() > 0);
            assert(with_key(y1, k).len() == 0);
        }
        assert(y1 =~= y2);
    } else {
        let e1 = y1.last();
        let k1 = item_key(e1);
        assert(with_key(y1, k1).len() > 0);
        assert(with_key(y2, k1).len() > 0);
        lemma_with_key_member(y2, k1);
        assert(y2.len() > 0);
        let e2 = y2.last();
        let k2 = item_key(e2);
        if k1 != k2 {
            lemma_lex_total(k1, k2);
            assert(with_key(y1, k2).len() > 0);
            lemma_with_key_member(y1, k2);
            let i = choose|i: int| 0 <= i < y1.len() && item_key(#[trigger] y1[i]) == k2;
            let j = choose|j: int| 0 <= j < y2.len() && item_key(#[trigger] y2[j]) == k1;
            if lex_lt(k1, k2) {
                assert(i < y1.len() - 1);
                assert(!lex_lt(item_key(y1[y1.len() - 1]), item_key(y1[i])));
            } else {
                assert(j < y2.len() - 1);
                assert(!lex_lt(item_key(y2[y2.len() - 1]), item_key(y2[j])));
            }
        }
        assert(with_key(y1, k1) == with_key(y1.drop_last(), k1).push(e1));
        assert(with_key(y2, k1) == with_key(y2.drop_last(), k1).push(e2));
        assert(e1 == with_key(y1, k1).last());
        assert(e2 == with_key(y2, k1).last());
        assert forall|k: Seq<char>| #[trigger] with_key(y1.drop_last(), k) == with_key(y2.drop_last(), k) by {
            if k == k1 {
                assert(with_key(y1.drop_last(), k) =~= with_key(y1, k).drop_last());
                assert(with_key(y2.drop_last(), k) =~= with_key(y2, k).drop_last());
            } else {
                assert(with_key(y1, k) == with_key(y1.drop_last(), k));
                assert(with_key(y2, k) == with_key(y2.drop_last(), k));
            }
        }
        lemma_sorted_same_classes(y1.drop_last(), y2.drop_last());
        assert(y1 =~= y1.drop_last().push(e1));
        assert(y2 =~= y2.drop_last().push(e2));
    }
}

/// A stable sort by key has only one outcome.
pub proof fn lemma_stable_sort_unique(x: Seq<Item>, y1: Seq<Item>, y2: Seq<Item>)
    requires
        stable_sorted(x, y1),
        stable_sorted(x, y2),
    ensures
        y1 == y2,
{
    assert forall|k: Seq<char>| #[trigger] with_key(y1, k) == with_key(y2, k) by {
        assert(with_key(y1, k) == with_key(x, k));
        assert(with_key(y2, k) == with_key(x, k));
    }
    lemma_sorted_same_classes(y1, y2);
}

proof fn lemma_decimal_at_most_nine(n: nat)
    requires
        n < 1_000_000_000,
    ensures
        1 <= decimal(n).len() <= 9,
{
    assert(pow10(9) == 1_000_000_000) by {
        reveal_with_fuel(pow10, 10);
    }
    lemma_decimal_len(n, 9, 1_000_000_000);
}

proof fn lemma_decimal_len(n: nat, k: nat, bound: nat)
    requires
        k >= 1,
        n < bound,
        bound <= pow10(k),
    ensures
        1 <= decimal(n).len() <= k,
    decreases k,
{
    if n >= 10 {
        assert(k >= 2) by {
            if k == 1 {
                assert(pow10(1) == 10 * pow10(0));
            }
        }
        assert(pow10(k) == 10 * pow10((k - 1) as nat));
        assert(n / 10 < pow10((k - 1) as nat));
        lemma_decimal_len(n / 10, (k - 1) as nat, pow10((k - 1) as nat));
    }
}

/// Ten to the power `k`.
pub open spec fn pow10(k: nat) -> nat
    decreases k,
{
    if k == 0 {
        1
    } else {
        10 * pow10((k - 1) as nat)
    }
}

/// The long `mfsls` line of a file, column by column (for fork lengths
/// below 10^9, which fill at most their 9 columns): lock flag `F` or `f`
/// at 0, type at 3..7, `/` at 7, creator at 8..12, the resource fork
/// length right-aligned in 13..22, the data fork length in 23..32, the
/// modification date in 33..50, the name from 51 on; spaces between.
pub proof fn lemma_ls_file_columns(files: Seq<FileEntry>, index: usize, name: String)
    requires
        index < files.len(),
        files[index as int].rsrc_len < 1_000_000_000,
        files[index as int].data_len < 1_000_000_000,
    ensures
        ({
            let f = files[index as int];
            let line = item_line(files, true, Item::File { index, name });
            &&& line.len() == 51 + name@.len()
            &&& line[0] == (if f.locked { 'F' } else { 'f' })
            &&& line[1] == ' ' && line[2] == ' '
            &&& forall|k: int| 0 <= k < 4 ==> line[3 + k] == fourcc_char(#[trigger] f.type_code@[k])
            &&& line[7] == '/'
            &&& forall|k: int| 0 <= k < 4 ==> line[8 + k] == fourcc_char(#[trigger] f.creator@[k])
            &&& line[12] == ' '
            &&& line.subrange(13, 22) == pad_left(decimal(f.rsrc_len as nat), 9, ' ')
            &&& line[22] == ' '
            &&& line.subrange(23, 32) == pad_left(decimal(f.data_len as nat), 9, ' ')
            &&& line[32] == ' '
            &&& line.subrange(33, 50) == date_short_text(f.mod_date)
            &&& line[50] == ' '
            &&& line.subrange(51, line.len() as int) == name@
        }),
{
    let f = files[index as int];
    let line = item_line(files, true, Item::File { index, name });
    lemma_decimal_at_most_nine(f.rsrc_len as nat);
    lemma_decimal_at_most_nine(f.data_len as nat);
    if f.mod_date != 0 {
        lemma_date_columns(f.mod_date);
    }
    let a = seq![if f.locked { 'F' } else { 'f' }] + spaces(2);
    let t = code_text(f.type_code);
    let c = code_text(f.creator);
    let r = pad_left(decimal(f.rsrc_len as nat), 9, ' ');
    let d = pad_left(decimal(f.data_len as nat), 9, ' ');
    let ds = date_short_text(f.mod_date);
    assert(t.len() == 4 && c.len() == 4 && r.len() == 9 && d.len() == 9 && ds.len() == 17);
    assert(line == a + t + seq!['/'] + c + spaces(1) + r + spaces(1) + d + spaces(1) + ds + spaces(1) + name@);
    lemma_line_layout(a, t, c, r, d, ds, name@);
    assert forall|k: int| 0 <= k < 4 implies line[3 + k] == fourcc_char(#[trigger] f.type_code@[k]) by {
        assert(line[3 + k] == t[k]);
    }
    assert forall|k: int| 0 <= k < 4 implies line[8 + k] == fourcc_char(#[trigger] f.creator@[k]) by {
        assert(line[8 + k] == c[k]);
    }
}

proof fn lemma_line_layout(
    a: Seq<char>,
    t: Seq<char>,
    c: Seq<char>,
    r: Seq<char>,
    d: Seq<char>,
    ds: Seq<char>,
    nm: Seq<char>,
)
    requires
        a.len() == 3,
        t.len() == 4,
        c.len() == 4,
        r.len() == 9,
        d.len() == 9,
        ds.len() == 17,
    ensures
        ({
            let line = a + t + seq!['/'] + c + spaces(1) + r + spaces(1) + d + spaces(1) + ds + spaces(
                1,
            ) + nm;
            &&& line.len() == 51 + nm.len()
            &&& forall|k: int| 0 <= k < 3 ==> line[k] == a[k]
            &&& forall|k: int| 0 <= k < 4 ==> line[3 + k] == t[k]
            &&& line[7] == '/'
            &&& forall|k: int| 0 <= k < 4 ==> line[8 + k] == c[k]
            &&& line[12] == ' ' && line[22] == ' ' && line[32] == ' ' && line[50] == ' '
            &&& line.subrange(13, 22) == r
            &&& line.subrange(23, 32) == d
            &&& line.subrange(33, 50) == ds
            &&& line.subrange(51, 51 + nm.len() as int) == nm
        }),
{
    let line = a + t + seq!['/'] + c + spaces(1) + r + spaces(1) + d + spaces(1) + ds + spaces(1) + nm;
    assert(line.subrange(13, 22) =~= r);
    assert(line.subrange(23, 32) =~= d);
    assert(line.subrange(33, 50) =~= ds);
    assert(line.subrange(51, 51 + nm.len() as int) =~= nm);
}

} // verus!
