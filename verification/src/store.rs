//! The in-memory tag store: an ordered mapping from tag to the list of file
//! paths carrying that tag, with the validation shared by the mutating
//! operations.

use vstd::prelude::*;
use vstd::string::StringExecFns;

use crate::text::blank;
use crate::text::is_blank;

verus! {

/// The mathematical contents of a tag database: tag/file-list pairs in
/// insertion order.
pub type Entries = Seq<(Seq<char>, Seq<Seq<char>>)>;

/// Why a mutating operation rejected its input.
#[derive(Clone, Copy, Debug, PartialEq, Eq, Structural)]
pub enum ValidationError {
    /// The tag is empty or all white space.
    EmptyTag,
    /// The file name is empty or all white space.
    EmptyFile,
    /// The file does not exist on disk.
    FileNotFound,
}

/// One tag together with the files carrying it, in insertion order.
pub struct TagEntry {
    pub tag: String,
    pub files: Vec<String>,
}

impl View for TagEntry {
    type V = (Seq<char>, Seq<Seq<char>>);

    open spec fn view(&self) -> (Seq<char>, Seq<Seq<char>>) {
        (self.tag@, self.files.deep_view())
    }
}

/// The tag database: entries in insertion order, one per tag.
pub struct TagDatabase {
    pub tags: Vec<TagEntry>,
}

impl View for TagDatabase {
    type V = Entries;

    open spec fn view(&self) -> Entries {
        self.tags@.map_values(|e: TagEntry| e@)
    }
}

/// A tag is present in the database.
pub open spec fn has_tag(es: Entries, t: Seq<char>) -> bool {
    exists|i: int| 0 <= i < es.len() && es[i].0 == t
}

/// The index of a tag's entry (meaningful only under `wf_entries`, which
/// makes it unique).
pub open spec fn idx_of(es: Entries, t: Seq<char>) -> int {
    choose|i: int| 0 <= i < es.len() && es[i].0 == t
}

/// The file list stored under a tag.
pub open spec fn files_of(es: Entries, t: Seq<char>) -> Seq<
    Seq<char>,
> {
    es[idx_of(es, t)].1
}

/// A file is recorded under a tag.
pub open spec fn contains_file(
    es: Entries,
    t: Seq<char>,
    f: Seq<char>,
) -> bool {
    has_tag(es, t) && files_of(es, t).contains(f)
}

/// Well-formedness of the database contents: tags are unique, no tag holds an
/// empty file list, and no file appears twice under one tag.
pub open spec fn wf_entries(es: Entries) -> bool {
    &&& forall|i: int, j: int| 0 <= i < j < es.len() ==> es[i].0 != es[j].0
    &&& forall|i: int| 0 <= i < es.len() ==> es[i].1.len() > 0
    &&& forall|i: int, a: int, b: int|
        0 <= i < es.len() && 0 <= a < b < es[i].1.len() ==> es[i].1[a] != es[i].1[b]
}

/// Inputs on which `add` and `remove` do their work: a non-blank tag, a
/// non-blank file name, and a file that exists on disk.
pub open spec fn valid_input(t: Seq<char>, f: Seq<char>, file_exists: bool) -> bool {
    !blank(t) && !blank(f) && file_exists
}

/// What a successful `add` does to the database contents.
pub open spec fn spec_add(
    es: Entries,
    t: Seq<char>,
    f: Seq<char>,
) -> Entries {
    if has_tag(es, t) {
        let i = idx_of(es, t);
        es.update(i, (es[i].0, es[i].1.push(f)))
    } else {
        es.push((t, seq![f]))
    }
}

/// The position of a file in a list (meaningful only when the list holds it
/// once, as `wf_entries` guarantees).
pub open spec fn pos_of(fs: Seq<Seq<char>>, f: Seq<char>) -> int {
    choose|p: int| 0 <= p < fs.len() && fs[p] == f
}

/// What a successful `remove` does to the database contents: the file leaves
/// the tag's list, and a tag whose list empties leaves the database.
pub open spec fn spec_remove(
    es: Entries,
    t: Seq<char>,
    f: Seq<char>,
) -> Entries {
    if contains_file(es, t, f) {
        let i = idx_of(es, t);
        let fs = es[i].1.remove(pos_of(es[i].1, f));
        if fs.len() == 0 {
            es.remove(i)
        } else {
            es.update(i, (es[i].0, fs))
        }
    } else {
        es
    }
}

impl TagDatabase {
    /// The database invariant, over the view.
    pub open spec fn wf(&self) -> bool {
        wf_entries(self@)
    }

    /// The empty database, the state before any storage exists.
    pub fn new() -> (db: TagDatabase)
        ensures
            db@ =~= Seq::<(Seq<char>, Seq<Seq<char>>)>::empty(),
            db.wf(),
    {
        TagDatabase { tags: Vec::new() }
    }

    /// The validation shared by `add_tag` and `remove_tag`: the tag and the
    /// file name must not be blank and the file must exist on disk (the
    /// caller reports whether it does, since only the caller touches disk).
    /// Returns the first rule broken, in that order.
    pub fn validate_input(tag: &str, file: &str, file_exists: bool) -> (r: Result<
        (),
        ValidationError,
    >)
        ensures
            r is Ok <==> valid_input(tag@, file@, file_exists),
            blank(tag@) ==> r == Result::<(), ValidationError>::Err(ValidationError::EmptyTag),
            !blank(tag@) && blank(file@) ==> r == Result::<(), ValidationError>::Err(
                ValidationError::EmptyFile,
            ),
            !blank(tag@) && !blank(file@) && !file_exists ==> r == Result::<
                (),
                ValidationError,
            >::Err(ValidationError::FileNotFound),
    {
        if is_blank(tag) {
            Err(ValidationError::EmptyTag)
        } else if is_blank(file) {
            Err(ValidationError::EmptyFile)
        } else if !file_exists {
            Err(ValidationError::FileNotFound)
        } else {
            Ok(())
        }
    }

    /// The index of `tag`'s entry, if any. Under `wf` the found index is the
    /// unique one, `idx_of`.
    fn find_index(&self, tag: &String) -> (r: Option<usize>)
        requires
            self.wf(),
        ensures
            r is Some <==> has_tag(self@, tag@),
            r matches Some(i) ==> 0 <= i < self@.len() && self@[i as int].0 == tag@ && i as int
                == idx_of(self@, tag@),
    {
        let n = self.tags.len();
        let mut i: usize = 0;
        while i < n
            invariant
                0 <= i <= n,
                n == self@.len(),
                self.wf(),
                forall|k: int| 0 <= k < i ==> self@[k].0 != tag@,
            decreases n - i,
        {
            if self.tags[i].tag == *tag {
                proof {
                    assert(self@[i as int].0 == tag@);
                    let j = idx_of(self@, tag@);
                    assert(0 <= j < self@.len() && self@[j].0 == tag@);
                    assert(j == i as int);
                }
                return Some(i);
            }
            i = i + 1;
        }
        None
    }

    /// The position of `file` in `files`, if present. Under the invariant the
    /// found position is the unique one, `pos_of`.
    fn find_file(files: &Vec<String>, file: &String) -> (r: Option<usize>)
        requires
            forall|a: int, b: int|
                0 <= a < b < files@.len() ==> files.deep_view()[a] != files.deep_view()[b],
        ensures
            r is Some <==> files.deep_view().contains(file@),
            r matches Some(p) ==> 0 <= p < files@.len() && files.deep_view()[p as int] == file@
                && p as int == pos_of(files.deep_view(), file@),
    {
        let n = files.len();
        let mut i: usize = 0;
        while i < n
            invariant
                0 <= i <= n,
                n == files@.len(),
                files.deep_view().len() == files@.len(),
                forall|a: int, b: int|
                    0 <= a < b < files@.len() ==> files.deep_view()[a] != files.deep_view()[b],
                forall|k: int| 0 <= k < i ==> files.deep_view()[k] != file@,
            decreases n - i,
        {
            if files[i] == *file {
                proof {
                    assert(files.deep_view()[i as int] == file@);
                    let p = pos_of(files.deep_view(), file@);
                    assert(0 <= p < files.deep_view().len() && files.deep_view()[p] == file@);
                    assert(p == i as int);
                }
                return Some(i);
            }
            i = i + 1;
        }
        proof {
            if files.deep_view().contains(file@) {
                let p = choose|p: int|
                    0 <= p < files.deep_view().len() && files.deep_view()[p] == file@;
                assert(files.deep_view()[p] != file@);
            }
        }
        None
    }

    /// Attaches `tag` to `file`. Validation failures leave the database
    /// unchanged and say which rule broke; a file already carrying the tag is
    /// a no-op reported as `Ok(false)`; otherwise the file is appended to the
    /// tag's list (the entry is created if the tag is new) and the result is
    /// `Ok(true)`.
    pub fn add_tag(&mut self, tag: String, file: String, file_exists: bool) -> (r: Result<
        bool,
        ValidationError,
    >)
        requires
            old(self).wf(),
        ensures
            final(self).wf(),
            r is Err ==> final(self)@ == old(self)@ && !valid_input(tag@, file@, file_exists)
                && Self::validate_input_result(tag@, file@, file_exists) == Result::<
                (),
                ValidationError,
            >::Err(r->Err_0),
            r == Result::<bool, ValidationError>::Ok(false) ==> final(self)@ == old(self)@
                && valid_input(tag@, file@, file_exists) && contains_file(old(self)@, tag@, file@),
            r == Result::<bool, ValidationError>::Ok(true) ==> valid_input(tag@, file@, file_exists)
                && !contains_file(old(self)@, tag@, file@) && final(self)@ == spec_add(
                old(self)@,
                tag@,
                file@,
            ),
            r is Ok <==> valid_input(tag@, file@, file_exists),
            r is Ok ==> (r == Result::<bool, ValidationError>::Ok(true) <==> !contains_file(
                old(self)@,
                tag@,
                file@,
            )),
    {
        if let Err(e) = Self::validate_input(tag.as_str(), file.as_str(), file_exists) {
            return Err(e);
        }
        match self.find_index(&tag) {
            Some(i) => {
                let ghost es = self@;
                if let Some(_) = Self::find_file(&self.tags[i].files, &file) {
                    proof {
                        assert(files_of(es, tag@) == es[i as int].1);
                    }
                    Ok(false)
                } else {
                    let mut entry = self.tags.remove(i);
                    entry.files.push(file);
                    self.tags.insert(i, entry);
                    proof {
                        assert(files_of(es, tag@) == es[i as int].1);
                        assert(!contains_file(es, tag@, file@));
                        assert(self@[i as int].1 =~= es[i as int].1.push(file@));
                        assert(self@[i as int] == spec_add(es, tag@, file@)[i as int]);
                        assert forall|k: int|
                            0 <= k < self@.len() && k != i implies self@[k] == spec_add(
                            es,
                            tag@,
                            file@,
                        )[k] by {
                            assert(self.tags@[k] == old(self).tags@[k]);
                        }
                        assert(self@ =~= spec_add(es, tag@, file@));
                        lemma_wf_add(es, tag@, file@);
                    }
                    Ok(true)
                }
            },
            None => {
                let mut files: Vec<String> = Vec::new();
                files.push(file);
                let entry = TagEntry { tag, files };
                let ghost es = self@;
                self.tags.push(entry);
                proof {
                    assert(entry.files.deep_view() =~= seq![file@]);
                    assert(self@ =~= spec_add(es, tag@, file@));
                    lemma_wf_add(es, tag@, file@);
                }
                Ok(true)
            },
        }
    }

    /// What `validate_input` returns, as a spec-level function of the inputs.
    pub open spec fn validate_input_result(
        t: Seq<char>,
        f: Seq<char>,
        file_exists: bool,
    ) -> Result<(), ValidationError> {
        if blank(t) {
            Err(ValidationError::EmptyTag)
        } else if blank(f) {
            Err(ValidationError::EmptyFile)
        } else if !file_exists {
            Err(ValidationError::FileNotFound)
        } else {
            Ok(())
        }
    }

    /// Detaches `tag` from `file`. Validation is the same as for `add_tag`;
    /// an absent tag or a file not under the tag is a no-op reported as
    /// `Ok(false)`; otherwise the file leaves the tag's list, a list that
    /// empties takes its tag entry with it, and the result is `Ok(true)`.
    pub fn remove_tag(&mut self, tag: &str, file: &str, file_exists: bool) -> (r: Result<
        bool,
        ValidationError,
    >)
        requires
            old(self).wf(),
        ensures
            final(self).wf(),
            r is Err ==> final(self)@ == old(self)@ && !valid_input(tag@, file@, file_exists)
                && Self::validate_input_result(tag@, file@, file_exists) == Result::<
                (),
                ValidationError,
            >::Err(r->Err_0),
            r == Result::<bool, ValidationError>::Ok(false) ==> final(self)@ == old(self)@
                && valid_input(tag@, file@, file_exists) && !contains_file(old(self)@, tag@, file@),
            r == Result::<bool, ValidationError>::Ok(true) ==> valid_input(tag@, file@, file_exists)
                && contains_file(old(self)@, tag@, file@) && final(self)@ == spec_remove(
                old(self)@,
                tag@,
                file@,
            ),
            r is Ok <==> valid_input(tag@, file@, file_exists),
            r is Ok ==> (r == Result::<bool, ValidationError>::Ok(true) <==> contains_file(
                old(self)@,
                tag@,
                file@,
            )),
    {
        if let Err(e) = Self::validate_input(tag, file, file_exists) {
            return Err(e);
        }
        let tag_s = String::from_str(tag);
        let file_s = String::from_str(file);
        match self.find_index(&tag_s) {
            Some(i) => {
                let ghost es = self@;
                match Self::find_file(&self.tags[i].files, &file_s) {
                    Some(p) => {
                        let mut entry = self.tags.remove(i);
                        entry.files.remove(p);
                        proof {
                            assert(files_of(es, tag@) == es[i as int].1);
                            assert(entry.files.deep_view() =~= es[i as int].1.remove(
                                pos_of(es[i as int].1, file@),
                            ));
                        }
                        if entry.files.len() == 0 {
                            proof {
                                assert(self@ =~= es.remove(i as int));
                                assert(self@ =~= spec_remove(es, tag@, file@));
                                lemma_wf_remove(es, tag@, file@);
                            }
                            Ok(true)
                        } else {
                            self.tags.insert(i, entry);
                            proof {
                                assert(self@ =~= spec_remove(es, tag@, file@));
                                lemma_wf_remove(es, tag@, file@);
                            }
                            Ok(true)
                        }
                    },
                    None => {
                        proof {
                            assert(files_of(es, tag@) == es[i as int].1);
                        }
                        Ok(false)
                    },
                }
            },
            None => Ok(false),
        }
    }

    /// Looks a tag up: `None` for a blank or absent tag, otherwise the list
    /// of files carrying it, never an error. Does not mutate and does not
    /// re-check that the files still exist.
    pub fn find_by_tag(&self, tag: &str) -> (r: Option<&Vec<String>>)
        requires
            self.wf(),
        ensures
            r is Some <==> (!blank(tag@) && has_tag(self@, tag@)),
            r matches Some(v) ==> v.deep_view() == files_of(self@, tag@) && v.deep_view().len()
                > 0,
    {
        if is_blank(tag) {
            return None;
        }
        let tag_s = String::from_str(tag);
        match self.find_index(&tag_s) {
            Some(i) => {
                proof {
                    assert(files_of(self@, tag@) == self@[i as int].1);
                }
                Some(&self.tags[i].files)
            },
            None => None,
        }
    }
}

/// Under unique tags, `idx_of` is the one index holding a tag.
pub proof fn lemma_idx_of_unique(es: Entries, t: Seq<char>, i: int)
    requires
        forall|a: int, b: int| 0 <= a < b < es.len() ==> es[a].0 != es[b].0,
        0 <= i < es.len(),
        es[i].0 == t,
    ensures
        has_tag(es, t),
        idx_of(es, t) == i,
{
    assert(has_tag(es, t));
    let j = idx_of(es, t);
    assert(0 <= j < es.len() && es[j].0 == t);
    if i < j {
        assert(es[i].0 != es[j].0);
    } else if j < i {
        assert(es[j].0 != es[i].0);
    }
}

/// Under no duplicates, `pos_of` is the one position holding a file.
pub proof fn lemma_pos_of_unique(fs: Seq<Seq<char>>, f: Seq<char>, p: int)
    requires
        forall|a: int, b: int| 0 <= a < b < fs.len() ==> fs[a] != fs[b],
        0 <= p < fs.len(),
        fs[p] == f,
    ensures
        fs.contains(f),
        pos_of(fs, f) == p,
{
    assert(fs.contains(f));
    let q = pos_of(fs, f);
    assert(0 <= q < fs.len() && fs[q] == f);
    if p < q {
        assert(fs[p] != fs[q]);
    } else if q < p {
        assert(fs[q] != fs[p]);
    }
}

/// Idempotence of tagging: once `add` has attached `tag` to `file`, the file
/// carries the tag, it appears in the tag's list exactly once, and the
/// database still satisfies its invariant — so a second identical `add` finds
/// the file already tagged and, by `add_tag`'s contract, changes nothing and
/// reports `Ok(false)`.
pub proof fn lemma_add_idempotent(es: Entries, t: Seq<char>, f: Seq<char>)
    requires
        wf_entries(es),
        !contains_file(es, t, f),
    ensures
        wf_entries(spec_add(es, t, f)),
        contains_file(spec_add(es, t, f), t, f),
        forall|q: int|
            0 <= q < files_of(spec_add(es, t, f), t).len() && #[trigger] files_of(
                spec_add(es, t, f),
                t,
            )[q] == f ==> q == pos_of(files_of(spec_add(es, t, f), t), f),
{
    let r = spec_add(es, t, f);
    lemma_wf_add(es, t, f);
    if has_tag(es, t) {
        let i = idx_of(es, t);
        assert(0 <= i < es.len() && es[i].0 == t);
        lemma_idx_of_unique(r, t, i);
        let fs = files_of(r, t);
        assert(fs == es[i].1.push(f));
        assert(fs[fs.len() - 1] == f);
        assert(fs.contains(f));
        assert forall|q: int| 0 <= q < fs.len() && fs[q] == f implies q == pos_of(fs, f) by {
            lemma_pos_of_unique(fs, f, q);
        }
    } else {
        let i = es.len() as int;
        assert(r[i].0 == t);
        lemma_idx_of_unique(r, t, i);
        let fs = files_of(r, t);
        assert(fs == seq![f]);
        assert(fs[0] == f);
        assert(fs.contains(f));
        assert forall|q: int| 0 <= q < fs.len() && fs[q] == f implies q == pos_of(fs, f) by {
            lemma_pos_of_unique(fs, f, q);
        }
    }
}

/// Symmetry of `add` and `remove`: on a database not already tagging `file`
/// with `tag`, a successful `add` followed by `remove` of the same pair
/// restores the contents exactly — in particular a tag created by the `add`
/// is gone again.
pub proof fn lemma_add_remove_symmetry(
    es: Entries,
    t: Seq<char>,
    f: Seq<char>,
)
    requires
        wf_entries(es),
        !contains_file(es, t, f),
    ensures
        spec_remove(spec_add(es, t, f), t, f) == es,
{
    let r = spec_add(es, t, f);
    lemma_wf_add(es, t, f);
    lemma_add_idempotent(es, t, f);
    if has_tag(es, t) {
        let i = idx_of(es, t);
        assert(0 <= i < es.len() && es[i].0 == t);
        lemma_idx_of_unique(r, t, i);
        let fs = r[i].1;
        assert(fs == es[i].1.push(f));
        assert(files_of(es, t) == es[i].1);
        assert(!es[i].1.contains(f));
        let n = es[i].1.len() as int;
        assert(fs[n] == f);
        assert forall|q: int| 0 <= q < n implies fs[q] != f by {
            assert(fs[q] == es[i].1[q]);
            if es[i].1[q] == f {
                assert(es[i].1.contains(f));
            }
        }
        lemma_pos_of_unique(fs, f, n);
        let fs2 = fs.remove(n);
        assert(fs2 =~= es[i].1);
        assert(fs2.len() > 0);
        let back = spec_remove(r, t, f);
        assert(back == r.update(i, (r[i].0, fs2)));
        assert((r[i].0, fs2) == (es[i].0, es[i].1));
        assert(back =~= es);
    } else {
        let i = es.len() as int;
        assert(r[i].0 == t);
        lemma_idx_of_unique(r, t, i);
        let fs = r[i].1;
        assert(fs =~= seq![f]);
        lemma_pos_of_unique(fs, f, 0);
        assert(fs.remove(0) =~= Seq::<Seq<char>>::empty());
        let back = spec_remove(r, t, f);
        assert(back == r.remove(i));
        assert(back =~= es);
    }
}

/// A successful `add` preserves the database invariant.
pub proof fn lemma_wf_add(es: Entries, t: Seq<char>, f: Seq<char>)
    requires
        wf_entries(es),
        !contains_file(es, t, f),
    ensures
        wf_entries(spec_add(es, t, f)),
{
    let r = spec_add(es, t, f);
    if has_tag(es, t) {
        let i = idx_of(es, t);
        assert(0 <= i < es.len() && es[i].0 == t);
        assert(!es[i].1.contains(f));
        assert forall|a: int, b: int|
            0 <= a < b < r[i].1.len() implies r[i].1[a] != r[i].1[b] by {
            if b == r[i].1.len() - 1 {
                assert(es[i].1[a] == r[i].1[a]);
                if es[i].1[a] == f {
                    assert(es[i].1.contains(f));
                }
            }
        }
    } else {
        assert forall|a: int, b: int|
            0 <= a < b < r.len() implies r[a].0 != r[b].0 by {
            if b == r.len() - 1 {
                if es[a].0 == t {
                    assert(has_tag(es, t));
                }
            }
        }
    }
}

/// A successful `remove` preserves the database invariant.
pub proof fn lemma_wf_remove(es: Entries, t: Seq<char>, f: Seq<char>)
    requires
        wf_entries(es),
    ensures
        wf_entries(spec_remove(es, t, f)),
{
    if contains_file(es, t, f) {
        let i = idx_of(es, t);
        assert(0 <= i < es.len() && es[i].0 == t);
        let p = pos_of(es[i].1, f);
        assert(0 <= p < es[i].1.len() && es[i].1[p] == f);
        let fs = es[i].1.remove(p);
        if fs.len() == 0 {
        } else {
            let r = es.update(i, (es[i].0, fs));
            assert forall|k: int, a: int, b: int|
                0 <= k < r.len() && 0 <= a < b < r[k].1.len() implies r[k].1[a] != r[k].1[b] by {
                if k == i {
                    let oa = if a < p { a } else { a + 1 };
                    let ob = if b < p { b } else { b + 1 };
                    assert(fs[a] == es[i].1[oa]);
                    assert(fs[b] == es[i].1[ob]);
                }
            }
        }
    }
}

} // verus!
