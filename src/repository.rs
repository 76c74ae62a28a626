//! A navigable view of a script repository: the root, the directory the user
//! is in, and the rules that turn what is on disk into listings.

use vstd::prelude::*;
use vstd::string::*;
use vstd::seq_lib::*;
use vstd::multiset::*;
use crate::config::{join_path, joined};
use crate::entries::{entry_views, EntryStatus, EntryView, ListEntry};
use crate::selection::strs;
use crate::text::{lemma_seq_lt_asymmetric, seq_lt, str_eq, str_lt};

verus! {

broadcast use {vstd::seq_lib::group_to_multiset_ensures, vstd::multiset::group_multiset_axioms};

#[derive(Debug)]
pub enum RepositoryError {
    DoesNotExist,
    IOError(String),
    NotUTF8,
}

/// Names starting with `_` or `.` are hidden.
pub open spec fn is_hidden(name: Seq<char>) -> bool {
    name.len() > 0 && (name[0] == '_' || name[0] == '.')
}

/// A name with the extension `sql`.
pub open spec fn is_sql(name: Seq<char>) -> bool {
    name.len() > 4 && name.subrange(name.len() - 4, name.len() as int) == seq!['.', 's', 'q', 'l']
}

/// Decides `is_hidden`.
pub fn is_hidden_name(name: &str) -> (r: bool)
    ensures
        r == is_hidden(name@),
{
    let n = name.unicode_len();
    if n == 0 {
        false
    } else {
        let c = name.get_char(0);
        c == '_' || c == '.'
    }
}

/// Decides `is_sql`.
pub fn is_sql_name(name: &str) -> (r: bool)
    ensures
        r == is_sql(name@),
{
    let n = name.unicode_len();
    if n <= 4 {
        return false;
    }
    let r = name.get_char(n - 4) == '.' && name.get_char(n - 3) == 's' && name.get_char(n - 2)
        == 'q' && name.get_char(n - 1) == 'l';
    assert(r == (name@.subrange(n - 4, n as int) =~= seq!['.', 's', 'q', 'l']));
    r
}

/// Names joined with `/`: a path relative to the repository root.
pub open spec fn joined_names(names: Seq<Seq<char>>) -> Seq<char>
    decreases names.len(),
{
    if names.len() == 0 {
        Seq::empty()
    } else if names.len() == 1 {
        names[0]
    } else {
        joined_names(names.drop_last()) + seq!['/'] + names.last()
    }
}

fn join_names(names: &Vec<String>) -> (r: String)
    ensures
        r@ == joined_names(strs(names@)),
{
    let mut r = String::new();
    let mut i: usize = 0;
    while i < names.len()
        invariant
            i <= names.len(),
            r@ == joined_names(strs(names@).take(i as int)),
        decreases names.len() - i,
    {
        let ghost r0 = r@;
        assert(strs(names@).take(i + 1).drop_last() =~= strs(names@).take(i as int));
        if i > 0 {
            r.append("/");
            proof {
                reveal_strlit("/");
            }
        }
        r.append(names[i].as_str());
        i += 1;
        assert(r@ =~= joined_names(strs(names@).take(i as int)));
    }
    assert(strs(names@).take(names.len() as int) =~= strs(names@));
    r
}

/// The directory reached from `root` by opening each of `segments` in turn.
pub open spec fn path_below(root: Seq<char>, segments: Seq<Seq<char>>) -> Seq<char>
    decreases segments.len(),
{
    if segments.len() == 0 {
        root
    } else {
        joined(path_below(root, segments.drop_last()), segments.last())
    }
}

proof fn lemma_path_below_extends_root(root: Seq<char>, segments: Seq<Seq<char>>)
    ensures
        root.len() <= path_below(root, segments).len(),
        path_below(root, segments).take(root.len() as int) == root,
    decreases segments.len(),
{
    if segments.len() > 0 {
        let d = path_below(root, segments.drop_last());
        lemma_path_below_extends_root(root, segments.drop_last());
        let n = segments.last();
        if d.len() == 0 {
            assert(root.len() == 0);
            assert(path_below(root, segments).take(0) =~= root);
        } else if d.last() == '/' {
            assert((d + n).take(root.len() as int) =~= d.take(root.len() as int));
        } else {
            assert((d + seq!['/'] + n).take(root.len() as int) =~= d.take(root.len() as int));
        }
    }
}

/// A directory entry as read from disk.
pub struct DirItem {
    pub name: String,
    pub is_dir: bool,
}

/// The listing entry for `item` in the directory reached by `segments`.
pub open spec fn entry_for(segments: Seq<Seq<char>>, name: Seq<char>, is_dir: bool) -> EntryView {
    EntryView {
        path: joined_names(segments.push(name)),
        name,
        selected: false,
        is_directory: is_dir,
        status: if is_dir {
            EntryStatus::Directory
        } else {
            EntryStatus::Unknown
        },
    }
}

/// Whether a directory entry is listed: it is not hidden, and it is a
/// directory or a file with the extension `sql`.
pub open spec fn is_listed(name: Seq<char>, is_dir: bool) -> bool {
    !is_hidden(name) && (is_dir || is_sql(name))
}

/// The listing entries of `items`, in the order read.
pub open spec fn listed(segments: Seq<Seq<char>>, items: Seq<DirItem>) -> Seq<EntryView>
    decreases items.len(),
{
    if items.len() == 0 {
        Seq::empty()
    } else {
        let prev = listed(segments, items.drop_last());
        let it = items.last();
        if is_listed(it.name@, it.is_dir) {
            prev.push(entry_for(segments, it.name@, it.is_dir))
        } else {
            prev
        }
    }
}

/// No entry has a path strictly before the path of the one in front of it.
pub open spec fn sorted_by_path(s: Seq<EntryView>) -> bool {
    forall|i: int| 0 <= i < s.len() - 1 ==> !seq_lt(#[trigger] s[i + 1].path, s[i].path)
}

fn sort_by_path(v: Vec<ListEntry>) -> (r: Vec<ListEntry>)
    ensures
        sorted_by_path(entry_views(r@)),
        entry_views(r@).to_multiset() == entry_views(v@).to_multiset(),
{
    let mut rest = v;
    let mut r: Vec<ListEntry> = Vec::new();
    assert(entry_views(r@).to_multiset().add(entry_views(rest@).to_multiset()) =~= entry_views(
        v@,
    ).to_multiset());
    while rest.len() > 0
        invariant
            sorted_by_path(entry_views(r@)),
            entry_views(r@).to_multiset().add(entry_views(rest@).to_multiset()) == entry_views(
                v@,
            ).to_multiset(),
        decreases rest.len(),
    {
        let ghost rest0 = rest@;
        let ghost r0 = r@;
        let x = rest.pop().unwrap();
        assert(entry_views(rest0) =~= entry_views(rest@).push(x@));
        let mut p: usize = 0;
        while p < r.len() && !str_lt(x.relative_path.as_str(), r[p].relative_path.as_str())
            invariant
                r@ == r0,
                p <= r.len(),
                forall|j: int| 0 <= j < p ==> !seq_lt(x@.path, #[trigger] entry_views(r@)[j].path),
            decreases r.len() - p,
        {
            p += 1;
        }
        proof {
            if p < r.len() {
                lemma_seq_lt_asymmetric(x@.path, r@[p as int]@.path);
                assert(entry_views(r0)[p as int] == r0[p as int]@);
            }
            if p > 0 {
                assert(!seq_lt(x@.path, entry_views(r0)[p - 1].path));
            }
        }
        r.insert(p, x);
        proof {
            let t = entry_views(r@);
            let s0 = entry_views(r0);
            assert(t =~= s0.insert(p as int, x@));
            assert forall|i: int| 0 <= i < t.len() - 1 implies !seq_lt(
                #[trigger] t[i + 1].path,
                t[i].path,
            ) by {
                if i + 1 < p {
                    assert(t[i] == s0[i] && t[i + 1] == s0[i + 1]);
                    assert(!seq_lt(s0[i + 1].path, s0[i].path));
                } else if i + 1 == p {
                    assert(t[i] == s0[i] && t[i + 1] == x@);
                } else if i == p {
                    assert(t[i] == x@ && t[i + 1] == s0[i]);
                } else {
                    assert(t[i] == s0[i - 1] && t[i + 1] == s0[i]);
                    assert(!seq_lt(s0[(i - 1) + 1].path, s0[i - 1].path));
                }
            }
            assert(entry_views(r@).to_multiset().add(entry_views(rest@).to_multiset())
                =~= entry_views(v@).to_multiset());
        }
    }
    assert(entry_views(rest@).to_multiset() =~= Multiset::empty());
    assert(entry_views(r@).to_multiset() =~= entry_views(r@).to_multiset().add(
        entry_views(rest@).to_multiset(),
    ));
    r
}

pub struct Repository {
    root_str: String,
    path: Vec<String>,
}

impl Repository {
    /// The root, as given.
    pub closed spec fn root(&self) -> Seq<char> {
        self.root_str@
    }

    /// The directories opened from the root, outermost first.
    pub closed spec fn segments(&self) -> Seq<Seq<char>> {
        strs(self.path@)
    }

    /// Opens a repository at `root`: `None` stands for a root path that is not
    /// valid UTF-8, and `exists` for what checking the root on disk gave.
    pub fn new(root: Option<String>, exists: Result<bool, String>) -> (r: Result<Self, RepositoryError>)
        ensures
            root is None ==> (r matches Err(RepositoryError::NotUTF8)),
            root is Some && exists is Err ==> (r matches Err(RepositoryError::IOError(d))
                && exists == Err::<bool, String>(d)),
            root is Some && exists == Ok::<bool, String>(false) ==> (r matches Err(
                RepositoryError::DoesNotExist,
            )),
            root is Some && exists == Ok::<bool, String>(true) ==> (r matches Ok(repo)
                && repo.root() == root->0@ && repo.segments() == Seq::<Seq<char>>::empty()),
    {
        let root_str = match root {
            Some(s) => s,
            None => {
                return Err(RepositoryError::NotUTF8);
            },
        };
        match exists {
            Err(e) => Err(RepositoryError::IOError(e)),
            Ok(false) => Err(RepositoryError::DoesNotExist),
            Ok(true) => {
                let r = Repository { root_str, path: Vec::new() };
                assert(r.segments() =~= Seq::<Seq<char>>::empty());
                Ok(r)
            },
        }
    }

    pub fn base_as_str(&self) -> (r: String)
        ensures
            r@ == self.root(),
    {
        self.root_str.clone()
    }

    /// The directory the user is in.
    pub fn current_as_str(&self) -> (r: String)
        ensures
            r@ == path_below(self.root(), self.segments()),
    {
        let mut cur = self.root_str.clone();
        let mut i: usize = 0;
        while i < self.path.len()
            invariant
                i <= self.path.len(),
                cur@ == path_below(self.root(), self.segments().take(i as int)),
            decreases self.path.len() - i,
        {
            assert(self.segments().take(i + 1).drop_last() =~= self.segments().take(i as int));
            cur = join_path(cur.as_str(), self.path[i].as_str());
            i += 1;
        }
        assert(self.segments().take(self.path.len() as int) =~= self.segments());
        cur
    }

    /// The directory the user is in, with the root taken off its front.
    pub fn current_relative_as_str(&self) -> (r: String)
        ensures
            r@ == path_below(self.root(), self.segments()).skip(self.root().len() as int),
    {
        let cur = self.current_as_str();
        proof {
            lemma_path_below_extends_root(self.root(), self.segments());
        }
        let n = cur.as_str().unicode_len();
        let b = self.root_str.as_str().unicode_len();
        let rel = cur.as_str().substring_char(b, n);
        String::from_str(rel)
    }

    /// Enters directory `directory_name` of the current one; whether it exists
    /// is not checked.
    pub fn open_directory(&mut self, directory_name: &str)
        ensures
            final(self).root() == old(self).root(),
            final(self).segments() == old(self).segments().push(directory_name@),
    {
        self.path.push(String::from_str(directory_name));
        assert(self.segments() =~= old(self).segments().push(directory_name@));
    }

    /// Goes back to the parent directory and returns the name of the one left;
    /// `None` at the root.
    pub fn leave_directory(&mut self) -> (r: Option<String>)
        ensures
            final(self).root() == old(self).root(),
            old(self).segments().len() == 0 ==> r is None && final(self).segments() == old(
                self,
            ).segments(),
            old(self).segments().len() > 0 ==> (r matches Some(name) && name@ == old(
                self,
            ).segments().last() && final(self).segments() == old(self).segments().drop_last()),
    {
        let r = self.path.pop();
        assert(self.segments() =~= old(self).segments().take(self.path.len() as int));
        r
    }

    /// The path, relative to the root, of entry `name` of the current directory.
    pub fn child_path(&self, name: &str) -> (r: String)
        ensures
            r@ == joined_names(self.segments().push(name@)),
    {
        let mut names: Vec<String> = Vec::new();
        let mut i: usize = 0;
        while i < self.path.len()
            invariant
                i <= self.path.len(),
                strs(names@) == self.segments().take(i as int),
            decreases self.path.len() - i,
        {
            let ghost names0 = names@;
            names.push(self.path[i].clone());
            assert(strs(names@) =~= strs(names0).push(self.path@[i as int]@));
            i += 1;
            assert(strs(names@) =~= self.segments().take(i as int));
        }
        assert(self.segments().take(self.path.len() as int) =~= self.segments());
        let ghost names1 = names@;
        names.push(String::from_str(name));
        assert(strs(names@) =~= strs(names1).push(name@));
        assert(strs(names@) =~= self.segments().push(name@));
        join_names(&names)
    }

    /// The listing of the current directory, from its entries as read: hidden
    /// entries and files without the extension `sql` are left out, and the rest
    /// is sorted by path.
    pub fn list_entries(&self, items: Vec<DirItem>) -> (r: Vec<ListEntry>)
        ensures
            sorted_by_path(entry_views(r@)),
            entry_views(r@).to_multiset() == listed(self.segments(), items@).to_multiset(),
    {
        let mut out: Vec<ListEntry> = Vec::new();
        let mut i: usize = 0;
        while i < items.len()
            invariant
                i <= items.len(),
                entry_views(out@) == listed(self.segments(), items@.take(i as int)),
            decreases items.len() - i,
        {
            assert(items@.take(i + 1).drop_last() =~= items@.take(i as int));
            let it = &items[i];
            if !is_hidden_name(it.name.as_str()) && (it.is_dir || is_sql_name(it.name.as_str())) {
                let path = self.child_path(it.name.as_str());
                let status = if it.is_dir {
                    EntryStatus::Directory
                } else {
                    EntryStatus::Unknown
                };
                let ghost out0 = out@;
                out.push(
                    ListEntry {
                        relative_path: path,
                        name: it.name.clone(),
                        selected: false,
                        is_directory: it.is_dir,
                        status,
                    },
                );
                assert(entry_views(out@) =~= entry_views(out0).push(
                    entry_for(self.segments(), it.name@, it.is_dir),
                ));
            } else {
                assert(entry_views(out@) =~= listed(self.segments(), items@.take(i + 1)));
            }
            i += 1;
        }
        assert(items@.take(items.len() as int) =~= items@);
        sort_by_path(out)
    }
}

/// The paths of the file entries of `s`, in order.
pub open spec fn file_paths(s: Seq<EntryView>) -> Seq<Seq<char>>
    decreases s.len(),
{
    if s.len() == 0 {
        Seq::empty()
    } else if s.last().is_directory {
        file_paths(s.drop_last())
    } else {
        file_paths(s.drop_last()).push(s.last().path)
    }
}

/// The part of `s` from its first file entry named `anchor` on; empty if
/// there is none.
pub open spec fn from_anchor(s: Seq<EntryView>, anchor: Seq<char>) -> Seq<EntryView>
    decreases s.len(),
{
    if s.len() == 0 {
        s
    } else if !s[0].is_directory && s[0].name == anchor {
        s
    } else {
        from_anchor(s.drop_first(), anchor)
    }
}

/// The paths of the files of a listing, in its order.
pub fn files_in(entries: &Vec<ListEntry>) -> (r: Vec<String>)
    ensures
        strs(r@) == file_paths(entry_views(entries@)),
{
    assert(entry_views(entries@).skip(0) =~= entry_views(entries@));
    files_in_from(entries, 0)
}

fn files_in_from(entries: &Vec<ListEntry>, start: usize) -> (r: Vec<String>)
    requires
        start <= entries.len(),
    ensures
        strs(r@) == file_paths(entry_views(entries@).skip(start as int)),
{
    let ghost s = entry_views(entries@).skip(start as int);
    let mut out: Vec<String> = Vec::new();
    let mut i: usize = start;
    assert(s.take(0) =~= Seq::<EntryView>::empty());
    while i < entries.len()
        invariant
            start <= i <= entries.len(),
            s == entry_views(entries@).skip(start as int),
            strs(out@) == file_paths(s.take(i - start)),
        decreases entries.len() - i,
    {
        assert(s.take(i + 1 - start).drop_last() =~= s.take(i - start));
        assert(s[i - start] == entries@[i as int]@);
        if !entries[i].is_directory {
            out.push(entries[i].relative_path.clone());
        }
        i += 1;
        assert(strs(out@) =~= file_paths(s.take(i - start)));
    }
    assert(s.take(entries.len() - start) =~= s);
    out
}

/// The paths of the files of a listing from the file named `anchor` on,
/// in the listing's order; none if no file has that name.
pub fn files_from(entries: &Vec<ListEntry>, anchor: &str) -> (r: Vec<String>)
    ensures
        strs(r@) == file_paths(from_anchor(entry_views(entries@), anchor@)),
{
    let ghost s = entry_views(entries@);
    let mut i: usize = 0;
    assert(s.skip(0) =~= s);
    while i < entries.len() && (entries[i].is_directory || !str_eq(
        entries[i].name.as_str(),
        anchor,
    ))
        invariant
            i <= entries.len(),
            s == entry_views(entries@),
            from_anchor(s, anchor@) == from_anchor(s.skip(i as int), anchor@),
        decreases entries.len() - i,
    {
        assert(s.skip(i as int).drop_first() =~= s.skip(i + 1));
        i += 1;
    }
    if i == entries.len() {
        assert(s.skip(i as int) =~= Seq::<EntryView>::empty());
        assert(file_paths(Seq::<EntryView>::empty()) =~= Seq::<Seq<char>>::empty());
        Vec::new()
    } else {
        files_in_from(entries, i)
    }
}

/// An entry met walking a directory tree: its path relative to the
/// repository root, the names on the way from the walk's start down to it
/// (none for the start itself), and whether it is a directory.
pub struct WalkItem {
    pub relative_path: String,
    pub names: Vec<String>,
    pub is_dir: bool,
}

/// No name on the way down is hidden.
pub open spec fn visible(names: Seq<Seq<char>>) -> bool {
    forall|i: int| 0 <= i < names.len() ==> !is_hidden(#[trigger] names[i])
}

/// The item is a visible script file.
pub open spec fn is_walked_script(w: WalkItem) -> bool {
    &&& !w.is_dir
    &&& visible(strs(w.names@))
    &&& w.names@.len() > 0
    &&& is_sql(w.names@.last()@)
}

/// The paths of the visible script files of a walk, in walk order.
pub open spec fn walked_scripts(walk: Seq<WalkItem>) -> Seq<Seq<char>>
    decreases walk.len(),
{
    if walk.len() == 0 {
        Seq::empty()
    } else if is_walked_script(walk.last()) {
        walked_scripts(walk.drop_last()).push(walk.last().relative_path@)
    } else {
        walked_scripts(walk.drop_last())
    }
}

/// The part of a walk from its first visible item at path `target` on;
/// empty if there is none.
pub open spec fn walk_from(walk: Seq<WalkItem>, target: Seq<char>) -> Seq<WalkItem>
    decreases walk.len(),
{
    if walk.len() == 0 {
        walk
    } else if visible(strs(walk[0].names@)) && walk[0].relative_path@ == target {
        walk
    } else {
        walk_from(walk.drop_first(), target)
    }
}

fn is_visible(names: &Vec<String>) -> (r: bool)
    ensures
        r == visible(strs(names@)),
{
    let mut i: usize = 0;
    while i < names.len()
        invariant
            i <= names.len(),
            forall|j: int| 0 <= j < i ==> !is_hidden(#[trigger] strs(names@)[j]),
        decreases names.len() - i,
    {
        if is_hidden_name(names[i].as_str()) {
            assert(is_hidden(strs(names@)[i as int]));
            return false;
        }
        i += 1;
    }
    true
}

fn is_walked_script_exec(w: &WalkItem) -> (r: bool)
    ensures
        r == is_walked_script(*w),
{
    !w.is_dir && is_visible(&w.names) && w.names.len() > 0 && is_sql_name(
        w.names[w.names.len() - 1].as_str(),
    )
}

fn walked_scripts_from(walk: &Vec<WalkItem>, start: usize) -> (r: Vec<String>)
    requires
        start <= walk.len(),
    ensures
        strs(r@) == walked_scripts(walk@.skip(start as int)),
{
    let ghost s = walk@.skip(start as int);
    let mut out: Vec<String> = Vec::new();
    let mut i: usize = start;
    assert(s.take(0) =~= Seq::<WalkItem>::empty());
    while i < walk.len()
        invariant
            start <= i <= walk.len(),
            s == walk@.skip(start as int),
            strs(out@) == walked_scripts(s.take(i - start)),
        decreases walk.len() - i,
    {
        assert(s.take(i + 1 - start).drop_last() =~= s.take(i - start));
        assert(s[i - start] == walk@[i as int]);
        if is_walked_script_exec(&walk[i]) {
            out.push(walk[i].relative_path.clone());
        }
        i += 1;
        assert(strs(out@) =~= walked_scripts(s.take(i - start)));
    }
    assert(s.take(walk.len() - start) =~= s);
    out
}

/// The script files met walking a subtree, depth first: hidden entries and
/// everything below them are left out.
pub fn scripts_in_walk(walk: &Vec<WalkItem>) -> (r: Vec<String>)
    ensures
        strs(r@) == walked_scripts(walk@),
{
    assert(walk@.skip(0) =~= walk@);
    walked_scripts_from(walk, 0)
}

/// The script files met walking the whole repository, depth first, from the
/// entry at path `target` on; none if the walk does not meet it.
pub fn scripts_in_walk_from(walk: &Vec<WalkItem>, target: &str) -> (r: Vec<String>)
    ensures
        strs(r@) == walked_scripts(walk_from(walk@, target@)),
{
    let mut i: usize = 0;
    assert(walk@.skip(0) =~= walk@);
    while i < walk.len() && !(is_visible(&walk[i].names) && str_eq(
        walk[i].relative_path.as_str(),
        target,
    ))
        invariant
            i <= walk.len(),
            walk_from(walk@, target@) == walk_from(walk@.skip(i as int), target@),
        decreases walk.len() - i,
    {
        assert(walk@.skip(i as int).drop_first() =~= walk@.skip(i + 1));
        i += 1;
    }
    if i == walk.len() {
        assert(walk@.skip(i as int) =~= Seq::<WalkItem>::empty());
        Vec::new()
    } else {
        walked_scripts_from(walk, i)
    }
}

} // verus!
