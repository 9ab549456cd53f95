//! Ordered set of changes that goes from one version of files to another.

use crate::patch::{
    apply_from, ends_terminated, join_lines, no_nl, parse_patch, split_lines, swap_hunks,
    PatchError,
};
use crate::text;
use vstd::prelude::*;

verus! {

/// One file's metadata and patch for a single pull request.
#[derive(Debug)]
pub struct Change {
    pub filename: String,
    /// The previous filename; present only for renamed files.
    pub previous_filename: Option<String>,
    pub contents_url: String,
    /// Patches are *not* present for files that are only renamed
    /// and for large binary diffs.
    pub patch: Option<String>,
    pub status: String,
    /// The sha of the post-change blob.
    pub sha: String,
}

/// Field-by-field equality of two optional strings, compared by contents.
pub open spec fn opt_string_eq(a: Option<String>, b: Option<String>) -> bool {
    match (a, b) {
        (Some(x), Some(y)) => x@ == y@,
        (None, None) => true,
        _ => false,
    }
}

/// Equality of two changes, compared by the contents of every field.
pub open spec fn change_eq(a: Change, b: Change) -> bool {
    &&& a.filename@ == b.filename@
    &&& opt_string_eq(a.previous_filename, b.previous_filename)
    &&& a.contents_url@ == b.contents_url@
    &&& opt_string_eq(a.patch, b.patch)
    &&& a.status@ == b.status@
    &&& a.sha@ == b.sha@
}

fn opt_string_eq_exec(a: &Option<String>, b: &Option<String>) -> (r: bool)
    ensures
        r == opt_string_eq(*a, *b),
{
    match (a, b) {
        (Some(x), Some(y)) => *x == *y,
        (None, None) => true,
        _ => false,
    }
}

impl PartialEq for Change {
    fn eq(&self, other: &Change) -> (r: bool) {
        self.filename == other.filename && opt_string_eq_exec(
            &self.previous_filename,
            &other.previous_filename,
        ) && self.contents_url == other.contents_url && opt_string_eq_exec(
            &self.patch,
            &other.patch,
        ) && self.status == other.status && self.sha == other.sha
    }
}

impl vstd::std_specs::cmp::PartialEqSpecImpl for Change {
    open spec fn obeys_eq_spec() -> bool {
        true
    }

    open spec fn eq_spec(&self, other: &Change) -> bool {
        change_eq(*self, *other)
    }
}

/// Ordered sequence of changes; the order is the provider's return order
/// until one of the reordering operations mutates it.
#[derive(Debug)]
pub struct ChangeSet {
    pub changes: Vec<Change>,
}

impl PartialEq for ChangeSet {
    fn eq(&self, other: &ChangeSet) -> (r: bool) {
        let n = self.changes.len();
        if n != other.changes.len() {
            return false;
        }
        for i in 0..n
            invariant
                n == self.changes.len(),
                n == other.changes.len(),
                forall|j: int| 0 <= j < i ==> change_eq(self.changes@[j], other.changes@[j]),
        {
            if !(self.changes[i] == other.changes[i]) {
                return false;
            }
        }
        true
    }
}

impl vstd::std_specs::cmp::PartialEqSpecImpl for ChangeSet {
    open spec fn obeys_eq_spec() -> bool {
        true
    }

    open spec fn eq_spec(&self, other: &ChangeSet) -> bool {
        self.changes@.len() == other.changes@.len() && forall|j: int|
            0 <= j < self.changes@.len() ==> change_eq(self.changes@[j], other.changes@[j])
    }
}

/// Failure of a change-set reordering operation.
#[derive(Debug)]
pub enum ChangeSetError {
    /// The named file is not part of the change set.
    NotFound(String),
}

/// The path carried by a `NotFound` failure.
pub open spec fn not_found_path(e: ChangeSetError) -> Seq<char> {
    match e {
        ChangeSetError::NotFound(p) => p@,
    }
}

impl ChangeSetError {
    /// The human-readable description of the failure.
    pub fn message(&self) -> (r: String)
        ensures
            r@ == "No such path '"@ + not_found_path(*self) + "' in the diff."@,
    {
        match self {
            ChangeSetError::NotFound(path) => {
                let mut m = String::new();
                m.append("No such path '");
                m.append(path.as_str());
                m.append("' in the diff.");
                m
            },
        }
    }
}

/// Whether `name` is the contents of some string in `files`.
pub open spec fn name_in_list(files: Seq<String>, name: Seq<char>) -> bool {
    exists|i: int| 0 <= i < files.len() && files[i]@ == name
}

/// Whether position `p` holds the first record of `s` whose filename is `name`.
pub open spec fn is_first_pos(s: Seq<Change>, name: Seq<char>, p: int) -> bool {
    &&& 0 <= p < s.len()
    &&& s[p].filename@ == name
    &&& forall|j: int| 0 <= j < p ==> s[j].filename@ != name
}

/// Whether some record of `s` has filename `name`.
pub open spec fn has_name(s: Seq<Change>, name: Seq<char>) -> bool {
    exists|i: int| 0 <= i < s.len() && s[i].filename@ == name
}

/// The record that keeps `filter_files` retains.
pub open spec fn keeps_name(files: Seq<String>) -> spec_fn(Change) -> bool {
    |c: Change| name_in_list(files, c.filename@)
}

/// `skip_to` drops the prefix before the first record named `name`.
pub open spec fn skip_spec(s: Seq<Change>, p: int) -> Seq<Change> {
    s.subrange(p, s.len() as int)
}

/// `rotate_to` moves the prefix before the first record named `name` to the tail.
pub open spec fn rotate_spec(s: Seq<Change>, p: int) -> Seq<Change> {
    s.subrange(p, s.len() as int) + s.subrange(0, p)
}

impl ChangeSet {
    /// Will keep only changes related to `files`.
    ///
    /// Any `files` which aren't in the current [`ChangeSet`] will be ignored.
    /// This ignoring of unmatched entries in `files` mimics the behavior of
    /// `git-difftool`.
    ///
    /// The result holds exactly the records whose filename is in `files`, in
    /// their original relative order.
    pub fn filter_files(&mut self, files: &Vec<String>)
        ensures
            final(self).changes@ == old(self).changes@.filter(keeps_name(files@)),
    {
        let ghost orig = self.changes@;
        let ghost pred = keeps_name(files@);
        let total = self.changes.len();
        let mut rest: Vec<Change> = Vec::new();
        core::mem::swap(&mut self.changes, &mut rest);
        let mut done: usize = 0;
        proof {
            reveal(Seq::filter);
            assert(orig.subrange(0, 0) =~= Seq::<Change>::empty());
        }
        while rest.len() > 0
            invariant
                total == orig.len(),
                done + rest@.len() == total,
                rest@ == orig.subrange(done as int, orig.len() as int),
                self.changes@ == orig.subrange(0, done as int).filter(pred),
                pred == keeps_name(files@),
            decreases rest@.len(),
        {
            let c = move_out(&mut rest, 0);
            proof {
                reveal(Seq::filter);
                assert(c == orig[done as int]);
                assert(orig.subrange(0, done + 1).drop_last() =~= orig.subrange(0, done as int));
                assert(orig.subrange(0, done + 1).last() == orig[done as int]);
                assert(rest@ =~= orig.subrange(done + 1, orig.len() as int));
            }
            if name_in_list_exec(files, &c.filename) {
                self.changes.push(c);
            }
            done = done + 1;
        }
        proof {
            assert(orig.subrange(0, done as int) =~= orig);
        }
    }

    /// Rotate to `file` in the change set.
    ///
    /// Will rotate the files in the [`ChangeSet`] so that `file` is first and
    /// all files before `file` come at the end, relative order otherwise
    /// preserved.
    ///
    /// # Errors
    /// `NotFound` when `file` does not exist in the [`ChangeSet`].
    pub fn rotate_to(&mut self, file: &str) -> (r: Result<(), ChangeSetError>)
        ensures
            r is Ok <==> has_name(old(self).changes@, file@),
            r is Ok ==> forall|p: int|
                is_first_pos(old(self).changes@, file@, p) ==> final(self).changes@ == rotate_spec(
                    old(self).changes@,
                    p,
                ),
            r is Err ==> final(self).changes@ == old(self).changes@ && (r matches Err(
                ChangeSetError::NotFound(n),
            ) && n@ == file@),
    {
        let position = match self.file_position(file) {
            Ok(p) => p,
            Err(e) => {
                return Err(e);
            },
        };
        let mut tail = self.changes.split_off(position);
        tail.append(&mut self.changes);
        core::mem::swap(&mut self.changes, &mut tail);
        Ok(())
    }

    /// Skip to `file` in the change set.
    ///
    /// Will remove any files prior to `file` in the [`ChangeSet`].
    ///
    /// # Errors
    /// `NotFound` when `file` does not exist in the [`ChangeSet`].
    pub fn skip_to(&mut self, file: &str) -> (r: Result<(), ChangeSetError>)
        ensures
            r is Ok <==> has_name(old(self).changes@, file@),
            r is Ok ==> forall|p: int|
                is_first_pos(old(self).changes@, file@, p) ==> final(self).changes@ == skip_spec(
                    old(self).changes@,
                    p,
                ),
            r is Err ==> final(self).changes@ == old(self).changes@ && (r matches Err(
                ChangeSetError::NotFound(n),
            ) && n@ == file@),
    {
        let position = match self.file_position(file) {
            Ok(p) => p,
            Err(e) => {
                return Err(e);
            },
        };
        let tail = self.changes.split_off(position);
        self.changes = tail;
        Ok(())
    }

    /// Position of the first record named `file` in the change set.
    ///
    /// # Errors
    /// `NotFound` when `file` does not exist in the [`ChangeSet`].
    pub fn file_position(&self, file: &str) -> (r: Result<usize, ChangeSetError>)
        ensures
            r is Ok <==> has_name(self.changes@, file@),
            r matches Ok(p) ==> is_first_pos(self.changes@, file@, p as int),
            r is Err ==> (r matches Err(ChangeSetError::NotFound(n)) && n@ == file@),
    {
        let file_owned: String = file.to_owned();
        let n = self.changes.len();
        for i in 0..n
            invariant
                n == self.changes.len(),
                file_owned@ == file@,
                forall|j: int| 0 <= j < i ==> self.changes@[j].filename@ != file@,
        {
            if self.changes[i].filename == file_owned {
                return Ok(i);
            }
        }
        Err(ChangeSetError::NotFound(file.to_owned()))
    }
}

/// Whether `name` matches the contents of some string in `files`.
fn name_in_list_exec(files: &Vec<String>, name: &String) -> (r: bool)
    ensures
        r == name_in_list(files@, name@),
{
    let n = files.len();
    for i in 0..n
        invariant
            n == files.len(),
            forall|j: int| 0 <= j < i ==> files@[j]@ != name@,
    {
        if files[i] == *name {
            return true;
        }
    }
    false
}

// ---------------------------------------------------------------------------
// Reconstruction of the pre-change file body.
// ---------------------------------------------------------------------------

/// The opening of a submodule pointer patch: a single one-line hunk whose
/// first body line removes the prior reported commit id.
pub open spec fn submodule_marker() -> Seq<char> {
    "@@ -1 +1 @@\n-Subproject commit "@
}

/// The prefix of `s` before its first line feed, or empty text when `s`
/// holds no line feed at all.
pub open spec fn prefix_to_nl(s: Seq<char>) -> Seq<char>
    decreases s.len(),
{
    if no_nl(s) {
        Seq::empty()
    } else if s[0] == '\n' {
        Seq::empty()
    } else {
        seq![s[0]] + prefix_to_nl(s.drop_first())
    }
}

/// The prior commit id carried by a submodule pointer patch: present when
/// the patch opens with the marker and ends with the reported id `sha`, and
/// then equal to the text between the marker and the next line feed.
pub open spec fn submodule_sha_of(patch: Seq<char>, sha: Seq<char>) -> Option<Seq<char>> {
    let m = submodule_marker();
    if patch.len() >= m.len() && patch.subrange(0, m.len() as int) == m && sha.len() <= patch.len()
        && patch.subrange(patch.len() - sha.len(), patch.len() as int) == sha {
        Some(prefix_to_nl(patch.subrange(m.len() as int, patch.len() as int)))
    } else {
        None
    }
}

/// Up to the first line feed, `prefix_to_nl` copies the text.
proof fn lemma_prefix_to_nl(s: Seq<char>, i: int)
    requires
        0 <= i < s.len(),
        s[i] == '\n',
        forall|j: int| 0 <= j < i ==> s[j] != '\n',
    ensures
        prefix_to_nl(s) == s.subrange(0, i),
    decreases i,
{
    assert(!no_nl(s));
    if i == 0 {
        assert(prefix_to_nl(s) =~= s.subrange(0, 0));
    } else {
        lemma_prefix_to_nl(s.drop_first(), i - 1);
        assert(seq![s[0]] + s.drop_first().subrange(0, i - 1) =~= s.subrange(0, i));
    }
}

/// The reconstructed pair of file bodies for one change: the pre-change
/// body and the post-change body.
#[derive(Debug)]
pub struct Reversed {
    pub original: String,
    pub new: String,
}

/// Which reconstruction applies to a change, resolved once per change.
#[derive(Debug)]
pub enum Reconstruction {
    /// The fetched content already is the pre-change body; the post-change
    /// body is empty.
    Removed,
    /// A pure rename with no textual change: both bodies equal the fetched
    /// content.
    CopyOnly,
    /// A submodule pointer update: the pre-change body is the prior commit
    /// id carried by the patch.
    Submodule(String),
    /// A textual change: the pre-change body comes from reverse-applying
    /// the patch.
    Textual,
}

impl Change {
    /// The prior commit id when `patch` conforms to a submodule pointer
    /// patch whose trailing token equals this change's reported id.
    ///
    /// When the text after the marker holds no line feed the result is
    /// empty.
    pub fn get_submodule_commit_sha(&self, patch: &str) -> (r: Option<String>)
        ensures
            match submodule_sha_of(patch@, self.sha@) {
                Some(t) => r matches Some(s) && s@ == t,
                None => r is None,
            },
    {
        let p = text::chars_of(patch);
        let marker = text::chars_of("@@ -1 +1 @@\n-Subproject commit ");
        let sha = text::chars_of(self.sha.as_str());
        let np = p.len();
        let nm = marker.len();
        let ns = sha.len();
        if np < nm {
            return None;
        }
        for i in 0..nm
            invariant
                nm <= np == p@.len(),
                nm == marker@.len(),
                p@ == patch@,
                marker@ == submodule_marker(),
                forall|j: int| 0 <= j < i ==> p@[j] == marker@[j],
        {
            if p[i] != marker[i] {
                proof {
                    assert(patch@.subrange(0, nm as int)[i as int] == patch@[i as int]);
                    assert(patch@.subrange(0, nm as int) != submodule_marker());
                }
                return None;
            }
        }
        proof {
            assert(patch@.subrange(0, nm as int) =~= submodule_marker());
        }
        if ns > np {
            return None;
        }
        for i in 0..ns
            invariant
                ns <= np == p@.len(),
                ns == sha@.len(),
                p@ == patch@,
                sha@ == self.sha@,
                forall|j: int| 0 <= j < i ==> p@[np - ns + j] == sha@[j],
        {
            if p[np - ns + i] != sha[i] {
                proof {
                    let tail = patch@.subrange(np - ns, np as int);
                    assert(tail[i as int] == patch@[np - ns + i]);
                    assert(tail != self.sha@);
                }
                return None;
            }
        }
        proof {
            assert(patch@.subrange(np - ns, np as int) =~= self.sha@);
        }
        let ghost rest = patch@.subrange(nm as int, np as int);
        let mut j = nm;
        while j < np && p[j] != '\n'
            invariant
                nm <= j <= np == p@.len(),
                p@ == patch@,
                forall|k: int| nm <= k < j ==> p@[k] != '\n',
            decreases np - j,
        {
            j = j + 1;
        }
        if j == np {
            proof {
                assert(no_nl(rest));
                assert(prefix_to_nl(rest) =~= Seq::<char>::empty());
            }
            return Some(String::new());
        }
        proof {
            assert(rest[j - nm] == '\n');
            lemma_prefix_to_nl(rest, j - nm);
            assert(rest.subrange(0, j - nm) =~= patch@.subrange(nm as int, j as int));
        }
        let out = text::copy_range(&p, nm, j);
        Some(text::string_of(&out))
    }

    /// Resolves which of the closed set of reconstructions applies to this
    /// change.  The probes are ordered: a removed file first, then a change
    /// without patch text, then a submodule pointer patch, and a textual
    /// change otherwise.
    pub fn reconstruction(&self) -> (r: Reconstruction)
        ensures
            self.status@ == "removed"@ ==> r is Removed,
            self.status@ != "removed"@ && self.patch is None ==> r is CopyOnly,
            self.status@ != "removed"@ ==> (self.patch matches Some(p) ==> match submodule_sha_of(
                p@,
                self.sha@,
            ) {
                Some(t) => r matches Reconstruction::Submodule(s) && s@ == t,
                None => r is Textual,
            }),
    {
        if text::str_eq(self.status.as_str(), "removed") {
            return Reconstruction::Removed;
        }
        match &self.patch {
            None => Reconstruction::CopyOnly,
            Some(p) => match self.get_submodule_commit_sha(p.as_str()) {
                Some(s) => Reconstruction::Submodule(s),
                None => Reconstruction::Textual,
            },
        }
    }

    /// Reconstructs the pre-change body of this change from the fetched
    /// post-change content, and the post-change body to set beside it.
    ///
    /// For a removed file the fetched content resolves to the last live
    /// body (a provider quirk), so it becomes the original and the new body
    /// is empty.  A change without patch text is a pure rename: both bodies
    /// equal the fetched content.  A submodule pointer patch yields the
    /// prior commit id, with no trailing line terminator.  Any other patch
    /// is applied in reverse, textually.
    pub fn reverse_apply(&self, new_content: &str) -> (r: Result<Reversed, PatchError>)
        ensures
            self.status@ == "removed"@ ==> (r matches Ok(v) && v.original@ == new_content@
                && v.new@ == Seq::<char>::empty()),
            self.status@ != "removed"@ && self.patch is None ==> (r matches Ok(v) && v.original@
                == new_content@ && v.new@ == new_content@),
            self.status@ != "removed"@ ==> (self.patch matches Some(p) ==> match submodule_sha_of(
                p@,
                self.sha@,
            ) {
                Some(t) => r matches Ok(v) && v.original@ == t && v.new@ == new_content@,
                None => match parse_patch(p@) {
                    None => r == Err::<Reversed, PatchError>(PatchError::Malformed),
                    Some(hs) => match apply_from(
                        split_lines(new_content@),
                        swap_hunks(hs),
                        0,
                        0,
                    ) {
                        None => r == Err::<Reversed, PatchError>(PatchError::Mismatch),
                        Some(out) => r matches Ok(v) && v.original@ == join_lines(
                            out,
                            ends_terminated(new_content@),
                        ) && v.new@ == new_content@,
                    },
                },
            }),
    {
        match self.reconstruction() {
            Reconstruction::Removed => Ok(
                Reversed { original: new_content.to_owned(), new: String::new() },
            ),
            Reconstruction::CopyOnly => Ok(
                Reversed { original: new_content.to_owned(), new: new_content.to_owned() },
            ),
            Reconstruction::Submodule(s) => Ok(
                Reversed { original: s, new: new_content.to_owned() },
            ),
            Reconstruction::Textual => {
                match &self.patch {
                    Some(p) => {
                        let original = match crate::patch::apply_to_text(
                            p.as_str(),
                            new_content,
                            true,
                        ) {
                            Ok(o) => o,
                            Err(e) => {
                                return Err(e);
                            },
                        };
                        Ok(Reversed { original, new: new_content.to_owned() })
                    },
                    None => {
                        proof {
                            assert(false);
                        }
                        Err(PatchError::Malformed)
                    },
                }
            },
        }
    }
}

/// Law: the result of a rotation is an order-preserving cyclic reordering:
/// the result concatenated with itself contains the original sequence
/// starting at the rotation point, and rotating to the already-first record
/// is a no-op.
pub proof fn lemma_rotate_cyclic(s: Seq<Change>, p: int)
    requires
        0 <= p < s.len(),
    ensures
        (rotate_spec(s, p) + rotate_spec(s, p)).subrange(
            s.len() - p,
            2 * s.len() - p,
        ) == s,
        p == 0 ==> rotate_spec(s, p) == s,
{
    assert((rotate_spec(s, p) + rotate_spec(s, p)).subrange(s.len() - p, 2 * s.len() - p) =~= s);
    if p == 0 {
        assert(rotate_spec(s, 0) =~= s);
    }
}

/// Law: after skipping to a record, that record is first, so skipping to the
/// same name again changes nothing: `skip_to` is idempotent once at its
/// target.
pub proof fn lemma_skip_to_idempotent(s: Seq<Change>, name: Seq<char>, p: int)
    requires
        is_first_pos(s, name, p),
    ensures
        is_first_pos(skip_spec(s, p), name, 0),
        skip_spec(skip_spec(s, p), 0) == skip_spec(s, p),
{
    assert(skip_spec(skip_spec(s, p), 0) =~= skip_spec(s, p));
}

/// Law: filtering keeps exactly the records whose filename is in the
/// requested list; every kept record matches, and every matching record is
/// kept, with the original relative order preserved by `Seq::filter` itself.
pub proof fn lemma_filter_files_exact(s: Seq<Change>, files: Seq<String>)
    ensures
        forall|i: int|
            0 <= i < s.filter(keeps_name(files)).len() ==> name_in_list(
                files,
                (#[trigger] s.filter(keeps_name(files))[i]).filename@,
            ),
        forall|i: int|
            0 <= i < s.len() && name_in_list(files, (#[trigger] s[i]).filename@) ==> s.filter(
                keeps_name(files),
            ).contains(s[i]),
{
    broadcast use vstd::seq_lib::group_filter_ensures;

}

/// Removes and returns element `i`, preserving the order of the rest.
fn move_out(v: &mut Vec<Change>, i: usize) -> (r: Change)
    requires
        i < old(v)@.len(),
    ensures
        r == old(v)@[i as int],
        final(v)@ == old(v)@.remove(i as int),
{
    v.remove(i)
}

} // verus!
