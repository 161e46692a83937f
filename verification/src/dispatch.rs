//! The command dispatcher: one invocation routes one parsed command against
//! the store and reports a structured outcome; the caller performs the
//! surrounding I/O (reading arguments, probing the file, persisting, and
//! printing) and persists exactly when the outcome asks for it.

use vstd::prelude::*;

use crate::store::TagDatabase;
use crate::store::ValidationError;
use crate::store::contains_file;
use crate::store::files_of;
use crate::store::has_tag;
use crate::store::spec_add;
use crate::store::spec_remove;
use crate::store::valid_input;
use crate::text::blank;

verus! {

/// One parsed command line. A missing operand of `add` or `remove` stays
/// missing here; deciding what that means is the dispatcher's job.
pub enum Command {
    Add { file: Option<String>, tag: Option<String> },
    Remove { file: Option<String>, tag: Option<String> },
    Find { tag: String },
}

/// What one dispatch decided, for the caller to print; `Added` and `Removed`
/// are the outcomes after which the database must be persisted.
pub enum Outcome {
    /// The tag was attached; persist and confirm.
    Added { tag: String, file: String },
    /// The file already carried the tag; nothing changed.
    AlreadyTagged { tag: String, file: String },
    /// The tag was detached; persist and confirm.
    Removed { tag: String, file: String },
    /// The file did not carry the tag; nothing changed.
    NotTagged { tag: String, file: String },
    /// Validation rejected the operands; nothing changed.
    Rejected { error: ValidationError },
    /// An operand of `add` was missing; show usage.
    UsageAdd,
    /// An operand of `remove` was missing; show usage.
    UsageRemove,
    /// The files carrying the searched tag, never empty.
    Listing { tag: String, files: Vec<String> },
    /// No file carries the searched tag.
    NoFiles { tag: String },
}

impl Outcome {
    /// Whether the database changed, so that the caller must rewrite
    /// storage.
    pub open spec fn spec_needs_save(&self) -> bool {
        self matches Outcome::Added { .. } || self matches Outcome::Removed { .. }
    }

    /// Decides `spec_needs_save`.
    pub fn needs_save(&self) -> (r: bool)
        ensures
            r == self.spec_needs_save(),
    {
        match self {
            Outcome::Added { .. } => true,
            Outcome::Removed { .. } => true,
            _ => false,
        }
    }
}

/// Copies a file list for reporting.
fn copy_files(v: &Vec<String>) -> (r: Vec<String>)
    ensures
        r.deep_view() == v.deep_view(),
{
    let n = v.len();
    let mut r: Vec<String> = Vec::new();
    let mut i: usize = 0;
    while i < n
        invariant
            0 <= i <= n,
            n == v@.len(),
            r@ == v@.subrange(0, i as int),
        decreases n - i,
    {
        r.push(v[i].clone());
        proof {
            assert(r@ =~= v@.subrange(0, i + 1 as int));
        }
        i = i + 1;
    }
    proof {
        assert(r@ =~= v@);
        assert(r.deep_view() =~= v.deep_view());
    }
    r
}

/// Routes one command against the database. The database changes exactly on
/// a successful `add` of a new pair or a successful `remove` of a present
/// one, and the outcome reports each case: usage for a missing operand, the
/// broken rule for rejected operands, the store's answer otherwise.
pub fn dispatch(db: &mut TagDatabase, cmd: Command, file_exists: bool) -> (out: Outcome)
    requires
        old(db).wf(),
    ensures
        final(db).wf(),
        !out.spec_needs_save() ==> final(db)@ == old(db)@,
        cmd matches Command::Add { file: Some(f), tag: Some(t) } ==> {
            &&& !valid_input(t@, f@, file_exists) ==> (out matches Outcome::Rejected { error }
                && Result::<(), ValidationError>::Err(error)
                    == TagDatabase::validate_input_result(t@, f@, file_exists))
            &&& valid_input(t@, f@, file_exists) && contains_file(old(db)@, t@, f@) ==> (out
                matches Outcome::AlreadyTagged { tag, file } && tag@ == t@ && file@ == f@)
            &&& valid_input(t@, f@, file_exists) && !contains_file(old(db)@, t@, f@) ==> (out
                matches Outcome::Added { tag, file } && tag@ == t@ && file@ == f@ && final(db)@
                == spec_add(old(db)@, t@, f@))
        },
        cmd matches Command::Add { file, tag } && (file is None || tag is None) ==> out
            == Outcome::UsageAdd,
        cmd matches Command::Remove { file: Some(f), tag: Some(t) } ==> {
            &&& !valid_input(t@, f@, file_exists) ==> (out matches Outcome::Rejected { error }
                && Result::<(), ValidationError>::Err(error)
                    == TagDatabase::validate_input_result(t@, f@, file_exists))
            &&& valid_input(t@, f@, file_exists) && !contains_file(old(db)@, t@, f@) ==> (out
                matches Outcome::NotTagged { tag, file } && tag@ == t@ && file@ == f@)
            &&& valid_input(t@, f@, file_exists) && contains_file(old(db)@, t@, f@) ==> (out
                matches Outcome::Removed { tag, file } && tag@ == t@ && file@ == f@ && final(db)@
                == spec_remove(old(db)@, t@, f@))
        },
        cmd matches Command::Remove { file, tag } && (file is None || tag is None) ==> out
            == Outcome::UsageRemove,
        cmd matches Command::Find { tag: t } ==> {
            &&& !blank(t@) && has_tag(old(db)@, t@) ==> (out matches Outcome::Listing {
                tag,
                files,
            } && tag@ == t@ && files.deep_view() == files_of(old(db)@, t@)
                && files.deep_view().len() > 0)
            &&& !(!blank(t@) && has_tag(old(db)@, t@)) ==> (out matches Outcome::NoFiles { tag }
                && tag@ == t@)
        },
{
    match cmd {
        Command::Add { file, tag } => {
            if let (Some(f), Some(t)) = (file, tag) {
                match db.add_tag(t.clone(), f.clone(), file_exists) {
                    Ok(true) => Outcome::Added { tag: t, file: f },
                    Ok(false) => Outcome::AlreadyTagged { tag: t, file: f },
                    Err(error) => Outcome::Rejected { error },
                }
            } else {
                Outcome::UsageAdd
            }
        },
        Command::Remove { file, tag } => {
            if let (Some(f), Some(t)) = (file, tag) {
                match db.remove_tag(t.as_str(), f.as_str(), file_exists) {
                    Ok(true) => Outcome::Removed { tag: t, file: f },
                    Ok(false) => Outcome::NotTagged { tag: t, file: f },
                    Err(error) => Outcome::Rejected { error },
                }
            } else {
                Outcome::UsageRemove
            }
        },
        Command::Find { tag } => {
            let found = match db.find_by_tag(tag.as_str()) {
                Some(files) => Some(copy_files(files)),
                None => None,
            };
            match found {
                Some(files) => Outcome::Listing { tag, files },
                None => Outcome::NoFiles { tag },
            }
        },
    }
}

} // verus!
