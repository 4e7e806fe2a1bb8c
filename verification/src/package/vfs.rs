//! The filesystem seam, as far as it decides anything: which entries a listing hides, and the
//! order a listing comes back in.
//!
//! Every reader must agree on both, or a tool and the game disagree about what is in a package.
//! A listing never holds a `*.meta` sidecar or a dot-file, and comes back sorted by path, because
//! directory name is a tiebreaker the whole load order rests on and the platform's order is not
//! stable.

use crate::alias::discovery::DirEntry;
use crate::alias::rules::{file_name, file_name_of, opt_view};
use crate::text::{chars_of, eq_ignore_ascii_case, eq_ignoring_ascii_case, lemma_text_lt_irreflexive, lemma_text_lt_total, lemma_text_lt_transitive, lemma_text_lt_asymmetric, text_less, text_lt};
use vstd::prelude::*;

verus! {

broadcast use vstd::seq_lib::group_to_multiset_ensures;

/// The position of the last `c` in `s`, or -1.
pub open spec fn last_index(s: Seq<char>, c: char) -> int
    decreases s.len(),
{
    if s.len() == 0 {
        -1
    } else if s.last() == c {
        s.len() - 1
    } else {
        last_index(s.drop_last(), c)
    }
}

/// A file name's extension: what follows its last dot, when that dot is not the first character.
pub open spec fn extension_of(name: Seq<char>) -> Option<Seq<char>> {
    let dot = last_index(name, '.');
    if dot <= 0 {
        None
    } else {
        Some(name.skip(dot + 1))
    }
}

/// Whether a listing hides `path`: it names no file, or a dot-file, or a `.meta` sidecar in any
/// case.
pub open spec fn hidden(path: Seq<char>) -> bool {
    match file_name_of(path) {
        None => true,
        Some(name) => name[0] == '.' || (extension_of(name) matches Some(e) && eq_ignoring_ascii_case(e, "meta"@)),
    }
}

/// Executable [`hidden`].
pub fn is_hidden_from_listings(path: &str) -> (out: bool)
    ensures
        out == hidden(path@),
{
    let name = match file_name(path) {
        None => return true,
        Some(n) => n,
    };
    let chars = chars_of(name.as_str());
    proof {
        assert(file_name_of(path@) == Some(name@));
    }
    if chars[0] == '.' {
        return true;
    }
    let mut k: usize = chars.len();
    proof {
        assert(chars@.take(k as int) =~= chars@);
    }
    while k > 0 && chars[k - 1] != '.'
        invariant
            k <= chars@.len(),
            chars@ == name@,
            last_index(chars@, '.') == last_index(chars@.take(k as int), '.'),
        decreases k,
    {
        proof {
            assert(chars@.take(k as int).drop_last() =~= chars@.take(k - 1));
        }
        k = k - 1;
    }
    if k <= 1 {
        proof {
            if k == 1 {
                assert(chars@.take(1).last() == '.');
            }
        }
        return false;
    }
    proof {
        assert(chars@.take(k as int).last() == '.');
        assert(last_index(chars@, '.') == k - 1);
    }
    let mut ext: Vec<char> = Vec::new();
    let mut j = k;
    while j < chars.len()
        invariant
            k <= j <= chars@.len(),
            ext@ == chars@.subrange(k as int, j as int),
        decreases chars@.len() - j,
    {
        ext.push(chars[j]);
        proof {
            assert(chars@.subrange(k as int, j + 1) =~= chars@.subrange(k as int, j as int).push(chars@[j as int]));
        }
        j = j + 1;
    }
    proof {
        assert(ext@ =~= chars@.skip(k as int));
        reveal_strlit("meta");
    }
    let ext_text = crate::text::string_of(ext.as_slice());
    eq_ignore_ascii_case(ext_text.as_str(), "meta")
}

/// A listing entry as the contracts see it: its path and whether it is a directory.
pub type EntryView = (Seq<char>, bool);

/// The contract view of a listing.
pub open spec fn dir_views(entries: Seq<DirEntry>) -> Seq<EntryView> {
    entries.map_values(|e: DirEntry| (e.path@, e.is_dir))
}

/// Whether no entry's path sorts before an earlier one's.
pub open spec fn by_path(entries: Seq<EntryView>) -> bool {
    forall|p: int, q: int| 0 <= p < q < entries.len() ==> !text_lt(#[trigger] entries[q].0, #[trigger] entries[p].0)
}

/// What a reader hands back for the raw entries of one directory: those a listing does not hide,
/// sorted by path.
pub fn listing(raw: &Vec<DirEntry>) -> (out: Vec<DirEntry>)
    ensures
        by_path(dir_views(out@)),
        dir_views(out@).to_multiset() == dir_views(raw@).filter(|e: EntryView| !hidden(e.0)).to_multiset(),
{
    let ghost all = dir_views(raw@);
    let mut out: Vec<DirEntry> = Vec::new();
    let mut i: usize = 0;
    while i < raw.len()
        invariant
            i <= raw@.len(),
            all == dir_views(raw@),
            by_path(dir_views(out@)),
            dir_views(out@).to_multiset() == all.take(i as int).filter(|e: EntryView| !hidden(e.0)).to_multiset(),
        decreases raw@.len() - i,
    {
        let hide = is_hidden_from_listings(raw[i].path.as_str());
        proof {
            reveal(Seq::filter);
            assert(all.take(i + 1).drop_last() =~= all.take(i as int));
            assert(all[i as int] == dir_views(raw@)[i as int]);
        }
        if !hide {
            let entry = DirEntry { path: raw[i].path.clone(), is_dir: raw[i].is_dir };
            let mut p: usize = 0;
            while p < out.len() && !text_less(entry.path.as_str(), out[p].path.as_str())
                invariant
                    p <= out@.len(),
                    by_path(dir_views(out@)),
                    forall|j: int| 0 <= j < p ==> !text_lt(entry.path@, #[trigger] dir_views(out@)[j].0),
                decreases out@.len() - p,
            {
                proof {
                    assert(dir_views(out@)[p as int] == (out@[p as int].path@, out@[p as int].is_dir));
                }
                p = p + 1;
            }
            let ghost before = dir_views(out@);
            let ghost item = (entry.path@, entry.is_dir);
            proof {
                if p < out@.len() {
                    assert(before[p as int] == (out@[p as int].path@, out@[p as int].is_dir));
                    assert(text_lt(item.0, before[p as int].0));
                }
            }
            out.insert(p, entry);
            proof {
                let now = dir_views(out@);
                assert(now =~= before.insert(p as int, item));
                assert forall|a: int, b: int| 0 <= a < b < now.len() implies !text_lt(#[trigger] now[b].0, #[trigger] now[a].0) by {
                    if a == p {
                        // every later entry was not before `item`'s successor, which `item` precedes
                        if b > p + 1 {
                            assert(!text_lt(before[b - 1].0, before[p as int].0));
                            if text_lt(before[b - 1].0, item.0) {
                                lemma_text_lt_transitive(before[b - 1].0, item.0, before[p as int].0);
                            }
                        } else {
                            lemma_text_lt_asymmetric(item.0, before[p as int].0);
                        }
                    } else if b == p {
                        assert(!text_lt(item.0, before[a].0));
                    } else if a < p && b > p {
                        assert(!text_lt(before[b - 1].0, before[a].0));
                    } else if a > p {
                        assert(!text_lt(before[b - 1].0, before[a - 1].0));
                    }
                }
                assert(now.to_multiset() =~= before.to_multiset().insert(item));
                assert(all[i as int] == item);
            }
        }
        i = i + 1;
    }
    proof {
        assert(all.take(raw@.len() as int) =~= all);
    }
    out
}

/// A reader over the file system, rooted at a directory. Its reads are the application's; what
/// it decides is here.
#[derive(Debug, Clone)]
pub struct StdVfs {
    root: String,
}

impl StdVfs {
    /// A reader rooted at `root`.
    pub fn new(root: String) -> (out: StdVfs)
        ensures
            out.root_view() == root@,
    {
        StdVfs { root }
    }

    /// The root, as the contracts see it.
    pub closed spec fn root_view(&self) -> Seq<char> {
        self.root@
    }

    /// The directory every path is relative to.
    pub fn root(&self) -> (out: &str)
        ensures
            out@ == self.root_view(),
    {
        self.root.as_str()
    }

    /// Where `path` is on disk: the root joined with it.
    pub fn full_path(&self, path: &str) -> (out: String)
        ensures
            self.root_view().len() == 0 ==> out@ == path@,
            self.root_view().len() > 0 ==> out@ == self.root_view() + "/"@ + path@,
    {
        if self.root.as_str().unicode_len() == 0 {
            String::from_str(path)
        } else {
            let mut out = self.root.clone();
            out.append("/");
            out.append(path);
            out
        }
    }
}

} // verus!
