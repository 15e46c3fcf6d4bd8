//! Which model files a run reads: named files as they stand, and from each
//! named directory its `.toml` files in name order.

use vstd::prelude::*;
use crate::strings::{lemma_seq_lt_asymmetric, lemma_seq_lt_total, lemma_seq_lt_transitive, seq_lt, str_lt};

verus! {

broadcast use vstd::seq_lib::group_to_multiset_ensures;

/// A path named on the command line.
#[derive(Clone, Debug, PartialEq)]
pub enum ModelPath {
    /// A file, by its path.
    File(String),
    /// A directory, by its path, with the file name and full path of each
    /// of its entries.
    Dir(String, Vec<(String, String)>),
}

/// Why the model files could not be listed.
#[derive(Clone, Debug, PartialEq)]
pub enum ExpandError {
    /// The directory holds no `.toml` file.
    NoTomlFiles(String),
}

/// Position of the last `.` of a name, or -1.
pub open spec fn last_dot(s: Seq<char>) -> int
    decreases s.len(),
{
    if s.len() == 0 {
        -1
    } else if s.last() == '.' {
        s.len() - 1
    } else {
        last_dot(s.drop_last())
    }
}

/// The name has the extension `toml`, as `Path::extension` reads it: the
/// part after the last `.`, where that `.` is not the name's first character.
pub open spec fn has_toml_extension(name: Seq<char>) -> bool {
    let i = last_dot(name);
    i > 0 && name.skip(i + 1) == "toml"@
}

/// An entry as characters: file name and full path.
pub open spec fn entry_view(e: (String, String)) -> (Seq<char>, Seq<char>) {
    (e.0@, e.1@)
}

/// The entries whose file name has the extension `toml`, in order.
pub open spec fn toml_entries(es: Seq<(Seq<char>, Seq<char>)>) -> Seq<(Seq<char>, Seq<char>)>
    decreases es.len(),
{
    if es.len() == 0 {
        Seq::empty()
    } else if has_toml_extension(es.last().0) {
        toml_entries(es.drop_last()).push(es.last())
    } else {
        toml_entries(es.drop_last())
    }
}

/// Where an entry named `name` goes in the sorted run `r`: after every
/// entry whose name is not greater.
pub open spec fn insert_pos(r: Seq<(Seq<char>, Seq<char>)>, name: Seq<char>) -> int
    decreases r.len(),
{
    if r.len() == 0 {
        0
    } else if seq_lt(name, r[0].0) {
        0
    } else {
        1 + insert_pos(r.drop_first(), name)
    }
}

/// The entries sorted by file name, entries with equal names in their
/// the order they came in.
pub open spec fn sort_entries(s: Seq<(Seq<char>, Seq<char>)>) -> Seq<(Seq<char>, Seq<char>)>
    decreases s.len(),
{
    if s.len() == 0 {
        Seq::empty()
    } else {
        let r = sort_entries(s.drop_last());
        r.insert(insert_pos(r, s.last().0), s.last())
    }
}

/// The full paths of a directory's model files, in name order.
pub open spec fn dir_model_files(es: Seq<(Seq<char>, Seq<char>)>) -> Seq<Seq<char>> {
    sort_entries(toml_entries(es)).map_values(|e: (Seq<char>, Seq<char>)| e.1)
}

/// The files that the named paths stand for, or the first directory
/// without a `.toml` file.
pub open spec fn expand_spec(paths: Seq<ModelPath>) -> Result<Seq<Seq<char>>, Seq<char>>
    decreases paths.len(),
{
    if paths.len() == 0 {
        Ok(Seq::empty())
    } else {
        match expand_spec(paths.drop_last()) {
            Err(d) => Err(d),
            Ok(acc) => match paths.last() {
                ModelPath::File(p) => Ok(acc.push(p@)),
                ModelPath::Dir(d, es) => {
                    let fs = dir_model_files(es@.map_values(|e: (String, String)| entry_view(e)));
                    if fs.len() == 0 {
                        Err(d@)
                    } else {
                        Ok(acc + fs)
                    }
                },
            },
        }
    }
}

/// Whether a file name has the extension `toml`.
pub fn is_toml_file_name(name: &str) -> (b: bool)
    ensures
        b == has_toml_extension(name@),
{
    let n = name.unicode_len();
    let mut i: usize = n;
    assert(name@.take(n as int) =~= name@);
    while i > 0 && name.get_char(i - 1) != '.'
        invariant
            n == name@.len(),
            i <= n,
            last_dot(name@) == last_dot(name@.take(i as int)),
        decreases i,
    {
        assert(name@.take(i as int).drop_last() =~= name@.take(i - 1));
        i = i - 1;
    }
    proof {
        reveal_strlit("toml");
        if i > 0 {
            assert(name@.take(i as int).last() == '.');
        } else {
            assert(name@.take(0).len() == 0);
        }
    }
    assert(name@.take(n as int) =~= name@);
    if i < 2 {
        return false;
    }
    let dot = i - 1;
    if n - i != 4 {
        assert(name@.skip(dot + 1).len() != "toml"@.len());
        return false;
    }
    let r = name.get_char(i) == 't' && name.get_char(i + 1) == 'o' && name.get_char(i + 2) == 'm'
        && name.get_char(i + 3) == 'l';
    proof {
        if r {
            assert(name@.skip(dot + 1) =~= "toml"@);
        } else {
            if name@.skip(dot + 1) == "toml"@ {
                assert(name@.skip(dot + 1)[0] == 't');
                assert(name@.skip(dot + 1)[1] == 'o');
                assert(name@.skip(dot + 1)[2] == 'm');
                assert(name@.skip(dot + 1)[3] == 'l');
            }
        }
    }
    r
}

/// The model files of a directory: the entries whose name has the
/// extension `toml`, sorted by name, as full paths.
pub fn dir_model_file_paths(entries: &Vec<(String, String)>) -> (r: Vec<String>)
    ensures
        r@.map_values(|s: String| s@) == dir_model_files(entries@.map_values(|e: (String, String)| entry_view(e))),
{
    let ghost ev = entries@.map_values(|e: (String, String)| entry_view(e));
    let n = entries.len();
    let mut sorted: Vec<(String, String)> = Vec::new();
    let mut k: usize = 0;
    while k < n
        invariant
            n == entries@.len(),
            ev == entries@.map_values(|e: (String, String)| entry_view(e)),
            k <= n,
            sorted@.map_values(|e: (String, String)| entry_view(e)) == sort_entries(toml_entries(ev.take(k as int))),
        decreases n - k,
    {
        proof {
            assert(ev.take(k + 1).drop_last() =~= ev.take(k as int));
            assert(ev.take(k + 1).last() == entry_view(entries@[k as int]));
        }
        let name = entries[k].0.as_str();
        if is_toml_file_name(name) {
            let ghost sv = sorted@.map_values(|e: (String, String)| entry_view(e));
            let len = sorted.len();
            let mut i: usize = 0;
            assert(sv.skip(0) =~= sv);
            while i < len && !str_lt(name, sorted[i].0.as_str())
                invariant
                    len == sorted@.len(),
                    sv == sorted@.map_values(|e: (String, String)| entry_view(e)),
                    i <= len,
                    insert_pos(sv, name@) == i + insert_pos(sv.skip(i as int), name@),
                decreases len - i,
            {
                assert(sv.skip(i as int)[0] == sv[i as int]);
                assert(sv.skip(i as int).drop_first() =~= sv.skip(i + 1));
                i = i + 1;
            }
            proof {
                if i < len {
                    assert(sv.skip(i as int)[0] == sv[i as int]);
                    assert(sv[i as int].0 == sorted@[i as int].0@);
                } else {
                    assert(sv.skip(i as int).len() == 0);
                }
                assert(insert_pos(sv, name@) == i);
            }
            let e = (entries[k].0.clone(), entries[k].1.clone());
            sorted.insert(i, e);
            proof {
                let t = toml_entries(ev.take(k as int));
                let x = ev[k as int];
                assert(toml_entries(ev.take(k + 1)) == t.push(x));
                assert(t.push(x).drop_last() =~= t);
                assert(sort_entries(t.push(x)) == sv.insert(insert_pos(sv, x.0), x));
                assert(sorted@.map_values(|e: (String, String)| entry_view(e)) =~= sv.insert(i as int, ev[k as int]));
            }
        } else {
            proof {
                assert(toml_entries(ev.take(k + 1)) == toml_entries(ev.take(k as int)));
            }
        }
        k = k + 1;
    }
    assert(ev.take(n as int) =~= ev);
    let m = sorted.len();
    let mut r: Vec<String> = Vec::new();
    let mut j: usize = 0;
    while j < m
        invariant
            m == sorted@.len(),
            j <= m,
            r@.map_values(|s: String| s@) == sorted@.take(j as int).map_values(|e: (String, String)| e.1@),
        decreases m - j,
    {
        let ghost r0 = r@;
        r.push(sorted[j].1.clone());
        assert(r@.map_values(|s: String| s@) =~= r0.map_values(|s: String| s@).push(sorted@[j as int].1@));
        assert(sorted@.take(j + 1) =~= sorted@.take(j as int).push(sorted@[j as int]));
        assert(r@.map_values(|s: String| s@) =~= sorted@.take(j + 1).map_values(|e: (String, String)| e.1@));
        j = j + 1;
    }
    assert(sorted@.take(m as int) =~= sorted@);
    assert(r@.map_values(|s: String| s@) =~= dir_model_files(ev));
    r
}

/// Lists the model files that the named paths stand for: a file as it
/// stands, a directory as its `.toml` files in name order. A directory
/// without a `.toml` file stops the listing with an error.
pub fn expand_to_toml_files(paths: &Vec<ModelPath>) -> (r: Result<Vec<String>, ExpandError>)
    ensures
        match expand_spec(paths@) {
            Ok(v) => r matches Ok(o) && o@.map_values(|s: String| s@) == v,
            Err(d) => r matches Err(ExpandError::NoTomlFiles(x)) && x@ == d,
        },
{
    let n = paths.len();
    let mut out: Vec<String> = Vec::new();
    let mut i: usize = 0;
    assert(paths@.take(0).len() == 0);
    assert(out@.map_values(|s: String| s@) =~= Seq::<Seq<char>>::empty());
    while i < n
        invariant
            n == paths@.len(),
            i <= n,
            expand_spec(paths@.take(i as int)) == Ok::<Seq<Seq<char>>, Seq<char>>(out@.map_values(|s: String| s@)),
        decreases n - i,
    {
        proof {
            assert(paths@.take(i + 1).drop_last() =~= paths@.take(i as int));
            assert(paths@.take(i + 1).last() == paths@[i as int]);
        }
        let ghost o0 = out@;
        match &paths[i] {
            ModelPath::File(p) => {
                out.push(p.clone());
                assert(out@.map_values(|s: String| s@) =~= o0.map_values(|s: String| s@).push(p@));
            },
            ModelPath::Dir(d, entries) => {
                let files = dir_model_file_paths(entries);
                if files.len() == 0 {
                    proof {
                        lemma_expand_err_sticks(paths@, i as int + 1);
                        assert(paths@.take(n as int) =~= paths@);
                    }
                    return Err(ExpandError::NoTomlFiles(d.clone()));
                }
                let ghost fv = files@.map_values(|s: String| s@);
                let mut rest = files;
                let ghost f0 = rest@;
                let mut moved: usize = 0;
                let total = rest.len();
                assert(rest@ =~= f0.skip(0));
                while moved < total
                    invariant
                        total == f0.len(),
                        moved <= total,
                        rest@ == f0.skip(moved as int),
                        out@.map_values(|s: String| s@) == o0.map_values(|s: String| s@) + f0.take(moved as int).map_values(|s: String| s@),
                    decreases total - moved,
                {
                    assert(rest@[0] == f0[moved as int]);
                    let f = rest.remove(0);
                    assert(rest@ =~= f0.skip(moved + 1));
                    let ghost oo = out@;
                    out.push(f);
                    assert(f0.take(moved + 1) =~= f0.take(moved as int).push(f0[moved as int]));
                    assert(out@.map_values(|s: String| s@) =~= oo.map_values(|s: String| s@).push(f0[moved as int]@));
                    assert(o0.map_values(|s: String| s@) + f0.take(moved + 1).map_values(|s: String| s@) =~= o0.map_values(|s: String| s@) + f0.take(moved as int).map_values(|s: String| s@) + seq![f0[moved as int]@]);
                    moved = moved + 1;
                }
                assert(f0.take(total as int) =~= f0);
            },
        }
        i = i + 1;
    }
    assert(paths@.take(n as int) =~= paths@);
    Ok(out)
}

/// Once a prefix of the paths fails, every longer prefix fails the same way.
proof fn lemma_expand_err_sticks(paths: Seq<ModelPath>, k: int)
    requires
        0 <= k <= paths.len(),
        expand_spec(paths.take(k)) is Err,
    ensures
        expand_spec(paths) == expand_spec(paths.take(k)),
    decreases paths.len() - k,
{
    if k < paths.len() {
        assert(paths.take(k + 1).drop_last() =~= paths.take(k));
        lemma_expand_err_sticks(paths, k + 1);
    } else {
        assert(paths.take(k) =~= paths);
    }
}

// ---------------------------------------------------------------------------
// Laws

/// A name has the extension `toml` exactly when it has a `.` after its
/// first character, no `.` after that one, and `toml` after it.
pub proof fn lemma_toml_extension_meaning(name: Seq<char>)
    ensures
        has_toml_extension(name) <==> exists|i: int|
            0 < i < name.len() && #[trigger] name[i] == '.' && (forall|u: int| i < u < name.len() ==> name[u] != '.')
                && name.skip(i + 1) == "toml"@,
{
    lemma_last_dot(name);
    if has_toml_extension(name) {
        let i = last_dot(name);
        assert(name[i] == '.');
    }
    if exists|i: int|
        0 < i < name.len() && #[trigger] name[i] == '.' && (forall|u: int| i < u < name.len() ==> name[u] != '.')
            && name.skip(i + 1) == "toml"@ {
        let i = choose|i: int|
            0 < i < name.len() && #[trigger] name[i] == '.' && (forall|u: int| i < u < name.len() ==> name[u] != '.')
                && name.skip(i + 1) == "toml"@;
        let d = last_dot(name);
        if d > i {
            assert(name[d] != '.');
        }
        if d < i {
            assert(name[i] != '.');
        }
    }
}

/// `last_dot` is the last position holding a `.`, or -1 when there is none.
pub proof fn lemma_last_dot(s: Seq<char>)
    ensures
        -1 <= last_dot(s) < s.len(),
        last_dot(s) >= 0 ==> s[last_dot(s)] == '.',
        forall|u: int| last_dot(s) < u < s.len() ==> #[trigger] s[u] != '.',
    decreases s.len(),
{
    if s.len() > 0 && s.last() != '.' {
        lemma_last_dot(s.drop_last());
        assert forall|u: int| last_dot(s) < u < s.len() implies #[trigger] s[u] != '.' by {
            if u < s.len() - 1 {
                assert(s[u] == s.drop_last()[u]);
            }
        }
    }
}

/// A directory without a `.toml` file stops the listing: the listing fails
/// exactly when some named directory has no entry with that extension, and
/// then it names the first such directory.
pub proof fn lemma_expand_fails_on_empty_dir(paths: Seq<ModelPath>)
    ensures
        expand_spec(paths) is Err <==> exists|q: int|
            0 <= q < paths.len() && #[trigger] dir_without_toml(paths[q]),
        expand_spec(paths) matches Err(d) ==> exists|q: int|
            0 <= q < paths.len() && #[trigger] dir_without_toml(paths[q]) && (paths[q] matches ModelPath::Dir(x, _)
                && x@ == d) && forall|u: int| 0 <= u < q ==> !dir_without_toml(paths[u]),
    decreases paths.len(),
{
    if paths.len() > 0 {
        let d = paths.drop_last();
        lemma_expand_fails_on_empty_dir(d);
        if let ModelPath::Dir(_, es) = paths.last() {
            lemma_dir_files_empty(es@);
        }
        assert forall|q: int| 0 <= q < d.len() implies #[trigger] d[q] == paths[q] by {}
        if dir_without_toml(paths.last()) {
            assert(dir_without_toml(paths[paths.len() - 1]));
        }
        if exists|q: int| 0 <= q < paths.len() && #[trigger] dir_without_toml(paths[q]) {
            let q = choose|q: int| 0 <= q < paths.len() && #[trigger] dir_without_toml(paths[q]);
            if q < paths.len() - 1 {
                assert(dir_without_toml(d[q]));
            }
        }
        if expand_spec(d) is Ok {
            assert forall|u: int| 0 <= u < paths.len() - 1 implies !dir_without_toml(paths[u]) by {
                assert(paths[u] == d[u]);
            }
            if dir_without_toml(paths.last()) {
                let q = paths.len() - 1;
                assert(dir_without_toml(paths[q]) && forall|u: int| 0 <= u < q ==> !dir_without_toml(paths[u]));
            }
        } else {
            let q = choose|q: int|
                0 <= q < d.len() && #[trigger] dir_without_toml(d[q]) && (d[q] matches ModelPath::Dir(x, _)
                    && x@ == expand_spec(d)->Err_0) && forall|u: int| 0 <= u < q ==> !dir_without_toml(d[u]);
            assert(paths[q] == d[q]);
            assert forall|u: int| 0 <= u < q implies !dir_without_toml(paths[u]) by {
                assert(paths[u] == d[u]);
            }
        }
    }
}

/// Listing one path: a file stands for itself; a directory for its `.toml`
/// files in name order, or for an error naming it when it has none.
pub proof fn lemma_expand_single(p: ModelPath)
    ensures
        expand_spec(seq![p]) == match p {
            ModelPath::File(f) => Ok::<Seq<Seq<char>>, Seq<char>>(seq![f@]),
            ModelPath::Dir(d, es) => if dir_without_toml(p) {
                Err::<Seq<Seq<char>>, Seq<char>>(d@)
            } else {
                Ok(dir_model_files(es@.map_values(|e: (String, String)| entry_view(e))))
            },
        },
{
    let s = seq![p];
    assert(s.drop_last() =~= Seq::<ModelPath>::empty());
    assert(s.last() == p);
    assert(expand_spec(s.drop_last()) == Ok::<Seq<Seq<char>>, Seq<char>>(Seq::empty()));
    match p {
        ModelPath::File(f) => {
            assert(Seq::<Seq<char>>::empty().push(f@) =~= seq![f@]);
        },
        ModelPath::Dir(d, es) => {
            lemma_dir_files_empty(es@);
            let fs = dir_model_files(es@.map_values(|e: (String, String)| entry_view(e)));
            assert(Seq::<Seq<char>>::empty() + fs =~= fs);
            assert(dir_without_toml(p) <==> fs.len() == 0);
        },
    }
}

/// Listing two runs of paths one after the other lists the first and then
/// the second; the first error, if any, stops it.
pub proof fn lemma_expand_concat(a: Seq<ModelPath>, b: Seq<ModelPath>)
    ensures
        expand_spec(a + b) == match expand_spec(a) {
            Err(d) => Err::<Seq<Seq<char>>, Seq<char>>(d),
            Ok(x) => match expand_spec(b) {
                Err(d) => Err(d),
                Ok(y) => Ok(x + y),
            },
        },
    decreases b.len(),
{
    if b.len() == 0 {
        assert(a + b =~= a);
        if let Ok(x) = expand_spec(a) {
            assert(x + Seq::<Seq<char>>::empty() =~= x);
        }
    } else {
        let b1 = b.drop_last();
        lemma_expand_concat(a, b1);
        assert((a + b).drop_last() =~= a + b1);
        assert((a + b).last() == b.last());
        if let Ok(x) = expand_spec(a) {
            if let Ok(y) = expand_spec(b1) {
                match b.last() {
                    ModelPath::File(f) => {
                        assert((x + y).push(f@) =~= x + y.push(f@));
                    },
                    ModelPath::Dir(_, es) => {
                        let fs = dir_model_files(es@.map_values(|e: (String, String)| entry_view(e)));
                        assert(x + y + fs =~= x + (y + fs));
                    },
                }
            }
        }
    }
}

/// A directory lists no model file exactly when none of its entries has
/// the extension `toml`.
proof fn lemma_dir_files_empty(es: Seq<(String, String)>)
    ensures
        dir_model_files(es.map_values(|e: (String, String)| entry_view(e))).len() == 0
            <==> forall|i: int| 0 <= i < es.len() ==> !has_toml_extension(#[trigger] es[i].0@),
{
    let ev = es.map_values(|e: (String, String)| entry_view(e));
    let t = toml_entries(ev);
    lemma_toml_entries_exact(ev);
    lemma_sort_entries_len(t);
    if t.len() > 0 {
        assert(has_toml_extension(t[0].0) && ev.contains(t[0]));
        let j = choose|j: int| 0 <= j < ev.len() && ev[j] == t[0];
        assert(ev[j].0 == es[j].0@);
    }
    assert forall|i: int| 0 <= i < es.len() && t.len() == 0 implies !has_toml_extension(#[trigger] es[i].0@) by {
        assert(ev[i].0 == es[i].0@);
        if has_toml_extension(ev[i].0) {
            assert(t.contains(ev[i]));
        }
    }
}

/// Sorting keeps the number of entries.
proof fn lemma_sort_entries_len(s: Seq<(Seq<char>, Seq<char>)>)
    ensures
        sort_entries(s).len() == s.len(),
    decreases s.len(),
{
    if s.len() > 0 {
        lemma_sort_entries_len(s.drop_last());
        lemma_insert_pos(sort_entries(s.drop_last()), s.last().0);
    }
}

/// A named directory holding no entry with the extension `toml`.
pub open spec fn dir_without_toml(p: ModelPath) -> bool {
    match p {
        ModelPath::File(_) => false,
        ModelPath::Dir(_, es) => forall|i: int| 0 <= i < es@.len() ==> !has_toml_extension(#[trigger] es@[i].0@),
    }
}

/// Entries in order of file name (equal names in any order).
pub open spec fn sorted_by_name(r: Seq<(Seq<char>, Seq<char>)>) -> bool {
    forall|a: int, b: int| 0 <= a < b < r.len() ==> !seq_lt(r[b].0, r[a].0)
}

proof fn lemma_insert_pos(r: Seq<(Seq<char>, Seq<char>)>, name: Seq<char>)
    ensures
        0 <= insert_pos(r, name) <= r.len(),
        forall|t: int| 0 <= t < insert_pos(r, name) ==> !seq_lt(name, #[trigger] r[t].0),
        insert_pos(r, name) < r.len() ==> seq_lt(name, r[insert_pos(r, name)].0),
    decreases r.len(),
{
    if r.len() > 0 && !seq_lt(name, r[0].0) {
        lemma_insert_pos(r.drop_first(), name);
        assert forall|t: int| 0 <= t < insert_pos(r, name) implies !seq_lt(name, #[trigger] r[t].0) by {
            if t > 0 {
                assert(r[t] == r.drop_first()[t - 1]);
            }
        }
    }
}

/// The listing of a directory comes out sorted by file name.
pub proof fn lemma_sort_entries_sorted(s: Seq<(Seq<char>, Seq<char>)>)
    ensures
        sorted_by_name(sort_entries(s)),
    decreases s.len(),
{
    if s.len() > 0 {
        let r = sort_entries(s.drop_last());
        let e = s.last();
        let pos = insert_pos(r, e.0);
        lemma_sort_entries_sorted(s.drop_last());
        lemma_insert_pos(r, e.0);
        let r2 = r.insert(pos, e);
        assert forall|a: int, b: int| 0 <= a < b < r2.len() implies !seq_lt(r2[b].0, r2[a].0) by {
            if a == pos {
                let x = r[b - 1].0;
                let y = r[pos].0;
                assert(seq_lt(e.0, y));
                lemma_seq_lt_total(x, y);
                if x != y {
                    if seq_lt(y, x) {
                        lemma_seq_lt_transitive(e.0, y, x);
                    } else {
                        assert(!seq_lt(r[b - 1].0, r[pos].0));
                    }
                }
                lemma_seq_lt_asymmetric(e.0, x);
            } else if b == pos {
                assert(!seq_lt(e.0, r[a].0));
            } else if a < pos && b > pos {
                assert(!seq_lt(r[b - 1].0, r[a].0));
            } else if a > pos {
                assert(!seq_lt(r[b - 1].0, r[a - 1].0));
            } else {
                assert(!seq_lt(r[b].0, r[a].0));
            }
        }
    }
}

/// Sorting neither loses nor adds an entry.
pub proof fn lemma_sort_entries_permutes(s: Seq<(Seq<char>, Seq<char>)>)
    ensures
        sort_entries(s).to_multiset() == s.to_multiset(),
    decreases s.len(),
{
    if s.len() > 0 {
        let r = sort_entries(s.drop_last());
        lemma_sort_entries_permutes(s.drop_last());
        lemma_insert_pos(r, s.last().0);
        vstd::seq_lib::to_multiset_insert(r, insert_pos(r, s.last().0), s.last());
        assert(s.drop_last().push(s.last()) =~= s);
    }
}

/// A directory's listing keeps exactly the entries whose name has the
/// extension `toml`.
pub proof fn lemma_toml_entries_exact(es: Seq<(Seq<char>, Seq<char>)>)
    ensures
        forall|i: int|
            #![trigger toml_entries(es)[i]]
            0 <= i < toml_entries(es).len() ==> has_toml_extension(toml_entries(es)[i].0)
                && es.contains(toml_entries(es)[i]),
        forall|i: int| 0 <= i < es.len() && has_toml_extension(#[trigger] es[i].0) ==> toml_entries(es).contains(es[i]),
    decreases es.len(),
{
    if es.len() > 0 {
        let d = es.drop_last();
        lemma_toml_entries_exact(d);
        let t = toml_entries(es);
        let td = toml_entries(d);
        assert forall|i: int| #![trigger t[i]] 0 <= i < t.len() implies has_toml_extension(t[i].0) && es.contains(t[i]) by {
            if i < td.len() {
                assert(t[i] == td[i]);
                assert(has_toml_extension(td[i].0) && d.contains(td[i]));
                let j = choose|j: int| 0 <= j < d.len() && d[j] == td[i];
                assert(es[j] == d[j]);
            } else {
                assert(t[i] == es.last());
                assert(es[es.len() - 1] == es.last());
            }
        }
        assert forall|i: int| 0 <= i < es.len() && has_toml_extension(#[trigger] es[i].0) implies t.contains(es[i]) by {
            if i < es.len() - 1 {
                assert(d[i] == es[i]);
                let j = choose|j: int| 0 <= j < td.len() && td[j] == d[i];
                assert(t[j] == td[j]);
            } else {
                assert(t[t.len() - 1] == es[i]);
            }
        }
    }
}

} // verus!
