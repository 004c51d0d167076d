//! Reversible file operations: where a file goes, what happens on a name
//! collision, and the session's multi-step undo stack.
//!
//! The filesystem is touched only by the caller: this module decides the
//! destination (asking the caller whether a path exists, through `is_taken`),
//! records each operation once the caller has carried it out, and decides
//! what reversing the most recent one takes. Whatever `is_taken` answers, the
//! contracts say which answers led to each outcome.

use vstd::prelude::*;
use crate::domain::CollisionPolicy;
use crate::paths::{extension, file_name, file_stem, join, parent, path_eq, spec_extension, spec_file_name,
    spec_file_stem, spec_join, spec_parent, spec_path_eq, opt_view};
use crate::text::{owned, push_char, push_str};

verus! {

#[derive(Debug, Clone, Copy, PartialEq, Eq, Structural)]
pub enum OperationKind {
    Move,
    Copy,
    DeleteFolder,
    UndoMove,
    UndoCopy,
    UndoDeleteFolder,
}

#[derive(Debug, Clone, Copy, PartialEq, Eq, Structural)]
pub enum OperationStatus {
    Intent,
    Succeeded,
    Failed,
}

/// Why an operation could not be planned or undone.
#[derive(Debug, Clone, Copy, PartialEq, Eq, Structural)]
pub enum EngineError {
    /// The source path has no file name.
    NoFileName,
    /// The destination exists and the policy is `Skip`.
    DestinationExists,
    /// The requested path has no file stem to number.
    NoFileStem,
    /// Every numbered name up to 99999 is taken.
    NoRenameCandidate,
    /// The undo stack is empty.
    NothingToUndo,
    /// Undoing a move: a file already exists at the original path.
    SourceExists,
    /// Undoing a folder delete: the original folder path already exists.
    FolderExists,
    /// Undo records are not themselves undoable.
    NotUndoable,
    /// No recorded operation matches.
    NotFound,
}

/// A completed operation kept on the undo stack.
#[derive(Debug, Clone)]
pub struct CompletedOp {
    pub kind: OperationKind,
    /// Where the file started (inbox path for a move/trash).
    pub source_path: String,
    /// Where it ended up (the collision-resolved destination).
    pub resolved_path: String,
}

/// The abstract value of a completed operation.
pub open spec fn op_view(op: CompletedOp) -> (OperationKind, Seq<char>, Seq<char>) {
    (op.kind, op.source_path@, op.resolved_path@)
}

pub open spec fn ops_view(ops: Seq<CompletedOp>) -> Seq<(OperationKind, Seq<char>, Seq<char>)> {
    ops.map_values(|op: CompletedOp| op_view(op))
}

/// Some call of `f` on a string with the characters `s` answered `b`.
pub open spec fn answered<F: Fn(&str) -> bool>(f: F, s: Seq<char>, b: bool) -> bool {
    exists|x: &str| x@ == s && #[trigger] f.ensures((x,), b)
}

// ---------------------------------------------------------------------------
// Collision resolution
// ---------------------------------------------------------------------------

pub open spec fn digit_char(d: int) -> char {
    if d == 0 { '0' } else if d == 1 { '1' } else if d == 2 { '2' } else if d == 3 { '3' } else if d == 4 {
        '4'
    } else if d == 5 { '5' } else if d == 6 { '6' } else if d == 7 { '7' } else if d == 8 { '8' } else {
        '9'
    }
}

/// The decimal digits of `n`.
pub open spec fn decimal(n: nat) -> Seq<char>
    decreases n,
{
    if n < 10 {
        seq![digit_char(n as int)]
    } else {
        decimal(n / 10).push(digit_char((n % 10) as int))
    }
}

/// The `index`-th numbered name: `stem (index).ext`, or `stem (index)`
/// without an extension.
pub open spec fn numbered_name(stem: Seq<char>, ext: Option<Seq<char>>, index: nat) -> Seq<char> {
    let base = stem + seq![' ', '('] + decimal(index) + seq![')'];
    match ext {
        Some(e) => base + seq!['.'] + e,
        None => base,
    }
}

/// The parent of `p`, or the empty path.
pub open spec fn parent_or_empty(p: Seq<char>) -> Seq<char> {
    match spec_parent(p) {
        Some(q) => q,
        None => Seq::empty(),
    }
}

/// The `index`-th rename candidate for `requested`, beside it.
pub open spec fn candidate(requested: Seq<char>, index: nat) -> Seq<char> {
    spec_join(
        parent_or_empty(requested),
        numbered_name(spec_file_stem(requested)->0, spec_extension(requested), index),
    )
}

/// The first numbered name tried.
pub open spec fn first_index() -> nat {
    2
}

/// One past the last numbered name tried.
pub open spec fn index_limit() -> nat {
    100_000
}

fn digit_char_exec(d: u32) -> (r: char)
    requires
        d < 10,
    ensures
        r == digit_char(d as int),
{
    match d {
        0 => '0',
        1 => '1',
        2 => '2',
        3 => '3',
        4 => '4',
        5 => '5',
        6 => '6',
        7 => '7',
        8 => '8',
        _ => '9',
    }
}

/// Append the decimal digits of `n`.
fn push_decimal(out: &mut String, n: u32)
    ensures
        final(out)@ == old(out)@ + decimal(n as nat),
    decreases n,
{
    if n >= 10 {
        push_decimal(out, n / 10);
    }
    push_char(out, digit_char_exec(n % 10));
    proof {
        if n < 10 {
            assert(n % 10 == n);
        }
    }
}

/// Windows-Explorer-style `name (2).ext`, `name (3).ext`, …: the first
/// numbered name that `is_taken` reports free.
fn renamed_candidate<F: Fn(&str) -> bool>(requested: &str, is_taken: &F) -> (r: Result<String, EngineError>)
    requires
        forall|x: &str| is_taken.requires((x,)),
    ensures
        r matches Ok(p) ==> spec_file_stem(requested@) is Some && exists|i: nat|
            first_index() <= i < index_limit() && p@ == #[trigger] candidate(requested@, i) && answered(
                *is_taken,
                candidate(requested@, i),
                false,
            ) && forall|j: nat|
                first_index() <= j < i ==> answered(*is_taken, #[trigger] candidate(requested@, j), true),
        r matches Err(e) ==> (e == EngineError::NoFileStem && spec_file_stem(requested@) is None) || (e
            == EngineError::NoRenameCandidate && spec_file_stem(requested@) is Some && forall|j: nat|
            first_index() <= j < index_limit() ==> answered(*is_taken, #[trigger] candidate(requested@, j), true)),
{
    let dir = match parent(requested) {
        Some(p) => p,
        None => owned(""),
    };
    assert(dir@ == parent_or_empty(requested@)) by {
        if spec_parent(requested@) is None {
            assert(""@ =~= Seq::<char>::empty()) by {
                reveal_strlit("");
            }
        }
    }
    let stem = match file_stem(requested) {
        Some(s) => s,
        None => {
            return Err(EngineError::NoFileStem);
        },
    };
    let ext = extension(requested);
    let mut index: u32 = 2;
    while index < 100_000
        invariant
            2 <= index <= 100_000,
            forall|x: &str| is_taken.requires((x,)),
            dir@ == parent_or_empty(requested@),
            stem@ == spec_file_stem(requested@)->0,
            spec_file_stem(requested@) is Some,
            opt_view(ext) == spec_extension(requested@),
            forall|j: nat| first_index() <= j < index ==> answered(*is_taken, #[trigger] candidate(requested@, j), true),
        decreases 100_000 - index,
    {
        let mut name = owned(stem.as_str());
        push_char(&mut name, ' ');
        push_char(&mut name, '(');
        push_decimal(&mut name, index);
        push_char(&mut name, ')');
        match &ext {
            Some(e) => {
                push_char(&mut name, '.');
                push_str(&mut name, e.as_str());
            },
            None => {},
        }
        assert(name@ =~= numbered_name(stem@, spec_extension(requested@), index as nat));
        let cand = join(dir.as_str(), name.as_str());
        assert(cand@ == candidate(requested@, index as nat));
        let taken = is_taken(cand.as_str());
        if !taken {
            assert(answered(*is_taken, candidate(requested@, index as nat), false));
            return Ok(cand);
        }
        assert(answered(*is_taken, candidate(requested@, index as nat), true));
        index = index + 1;
    }
    Err(EngineError::NoRenameCandidate)
}

/// What resolving `requested` under `policy` can give, given what `is_taken`
/// answered: `requested` itself when free (or when overwriting), the first
/// free numbered name when renaming, or the reason for failing.
pub open spec fn collision_outcome<F: Fn(&str) -> bool>(
    r: Result<String, EngineError>,
    requested: Seq<char>,
    policy: CollisionPolicy,
    is_taken: F,
) -> bool {
    &&& r matches Ok(p) ==> {
        ||| p@ == requested && answered(is_taken, requested, false)
        ||| p@ == requested && policy == CollisionPolicy::Overwrite && answered(is_taken, requested, true)
        ||| policy == CollisionPolicy::Rename && answered(is_taken, requested, true) && spec_file_stem(requested) is Some
            && exists|i: nat|
            first_index() <= i < index_limit() && p@ == #[trigger] candidate(requested, i) && answered(
                is_taken,
                candidate(requested, i),
                false,
            ) && forall|j: nat| first_index() <= j < i ==> answered(is_taken, #[trigger] candidate(requested, j), true)
    }
    &&& r matches Err(e) ==> answered(is_taken, requested, true) && {
        ||| policy == CollisionPolicy::Skip && e == EngineError::DestinationExists
        ||| policy == CollisionPolicy::Rename && e == EngineError::NoFileStem && spec_file_stem(requested) is None
        ||| policy == CollisionPolicy::Rename && e == EngineError::NoRenameCandidate && spec_file_stem(requested) is Some
            && forall|j: nat|
            first_index() <= j < index_limit() ==> answered(is_taken, #[trigger] candidate(requested, j), true)
    }
}

/// Resolve the final destination per policy. When `requested` is free it is
/// used as is; otherwise `Overwrite` keeps it, `Skip` fails, and `Rename`
/// (the default) takes the first free `name (N).ext` — never clobbering.
pub fn resolve_collision<F: Fn(&str) -> bool>(requested: &str, policy: CollisionPolicy, is_taken: &F) -> (r: Result<
    String,
    EngineError,
>)
    requires
        forall|x: &str| is_taken.requires((x,)),
    ensures
        collision_outcome(r, requested@, policy, *is_taken),
{
    let taken = is_taken(requested);
    if !taken {
        assert(answered(*is_taken, requested@, false));
        return Ok(owned(requested));
    }
    assert(answered(*is_taken, requested@, true));
    match policy {
        CollisionPolicy::Overwrite => Ok(owned(requested)),
        CollisionPolicy::Skip => Err(EngineError::DestinationExists),
        CollisionPolicy::Rename => renamed_candidate(requested, is_taken),
    }
}

// ---------------------------------------------------------------------------
// The operation engine
// ---------------------------------------------------------------------------

/// The target a file or folder named like `source` would take in `dir`,
/// before collision resolution.
pub open spec fn requested_target(source: Seq<char>, dir: Seq<char>) -> Seq<char> {
    spec_join(dir, spec_file_name(source)->0)
}

/// The journal location and the stack of completed, undoable operations.
pub struct OperationEngine {
    journal_path: String,
    completed: Vec<CompletedOp>,
}

impl OperationEngine {
    /// The completed operations, oldest first.
    pub closed spec fn history(&self) -> Seq<(OperationKind, Seq<char>, Seq<char>)> {
        ops_view(self.completed@)
    }

    /// Where the journal is written.
    pub closed spec fn journal(&self) -> Seq<char> {
        self.journal_path@
    }

    pub fn new(journal_path: String) -> (r: Self)
        ensures
            r.history() == Seq::<(OperationKind, Seq<char>, Seq<char>)>::empty(),
            r.journal() == journal_path@,
    {
        let r = OperationEngine { journal_path, completed: Vec::new() };
        assert(r.history() =~= Seq::<(OperationKind, Seq<char>, Seq<char>)>::empty());
        r
    }

    /// The journal file.
    pub fn journal_path(&self) -> (r: &String)
        ensures
            r@ == self.journal(),
    {
        &self.journal_path
    }

    pub fn can_undo(&self) -> (r: bool)
        ensures
            r == (self.history().len() > 0),
    {
        self.completed.len() != 0
    }

    /// Where moving or copying `source` into `dest_dir` lands: the source's
    /// file name in `dest_dir`, resolved per `policy`.
    pub fn plan<F: Fn(&str) -> bool>(source: &str, dest_dir: &str, policy: CollisionPolicy, is_taken: &F) -> (r: Result<
        String,
        EngineError,
    >)
        requires
            forall|x: &str| is_taken.requires((x,)),
        ensures
            spec_file_name(source@) is None ==> r == Err::<String, EngineError>(EngineError::NoFileName),
            spec_file_name(source@) is Some ==> collision_outcome(
                r,
                requested_target(source@, dest_dir@),
                policy,
                *is_taken,
            ),
    {
        let name = match file_name(source) {
            Some(n) => n,
            None => {
                return Err(EngineError::NoFileName);
            },
        };
        let requested = join(dest_dir, name.as_str());
        resolve_collision(requested.as_str(), policy, is_taken)
    }

    /// Record a completed operation (after the caller has carried it out), so
    /// that it can be undone.
    pub fn record_completed(&mut self, kind: OperationKind, source: &str, resolved: &str)
        requires
            kind == OperationKind::Move || kind == OperationKind::Copy || kind == OperationKind::DeleteFolder,
        ensures
            final(self).history() == old(self).history().push((kind, source@, resolved@)),
            final(self).journal() == old(self).journal(),
    {
        let op = CompletedOp { kind, source_path: owned(source), resolved_path: owned(resolved) };
        self.completed.push(op);
        proof {
            assert(ops_view(self.completed@) =~= ops_view(old(self).completed@).push((kind, source@, resolved@)));
        }
    }

    /// Take the most recent completed operation off the stack and decide
    /// whether it can be reversed: a move or folder delete cannot be while
    /// something exists at its original path; undo records never can. The
    /// caller reverses the returned operation on disk: a move or folder delete
    /// goes back from `resolved_path` to `source_path`, a copy's duplicate at
    /// `resolved_path` is removed. The operation leaves the stack either way.
    pub fn undo_last<F: Fn(&str) -> bool>(&mut self, is_taken: &F) -> (r: Result<CompletedOp, EngineError>)
        requires
            forall|x: &str| is_taken.requires((x,)),
        ensures
            final(self).journal() == old(self).journal(),
            old(self).history().len() == 0 ==> r == Err::<CompletedOp, EngineError>(EngineError::NothingToUndo)
                && final(self).history() == old(self).history(),
            old(self).history().len() > 0 ==> final(self).history() == old(self).history().drop_last() && undo_outcome(
                r,
                old(self).history().last(),
                *is_taken,
            ),
    {
        let ghost before = self.history();
        match self.completed.pop() {
            None => Err(EngineError::NothingToUndo),
            Some(last) => {
                proof {
                    assert(ops_view(self.completed@) =~= before.drop_last());
                    assert(op_view(last) == before.last());
                }
                check_reversible(last, is_taken)
            },
        }
    }

    /// Revert one specific past operation (per-file undo from the history
    /// view): the most recent recorded operation whose source and resolved
    /// paths are `source` and `resolved` leaves the stack and is checked as
    /// `undo_last` checks the most recent one.
    pub fn revert_specific<F: Fn(&str) -> bool>(&mut self, source: &str, resolved: &str, is_taken: &F) -> (r: Result<
        CompletedOp,
        EngineError,
    >)
        requires
            forall|x: &str| is_taken.requires((x,)),
        ensures
            final(self).journal() == old(self).journal(),
            r == Err::<CompletedOp, EngineError>(EngineError::NotFound) <==> !(exists|k: int|
                0 <= k < old(self).history().len() && #[trigger] matches_paths(old(self).history()[k], source@, resolved@)),
            r != Err::<CompletedOp, EngineError>(EngineError::NotFound) ==> exists|k: int|
                0 <= k < old(self).history().len() && #[trigger] matches_paths(old(self).history()[k], source@, resolved@)
                    && (forall|l: int| k < l < old(self).history().len() ==> !#[trigger] matches_paths(old(self).history()[l], source@, resolved@))
                    && final(self).history() == old(self).history().remove(k) && undo_outcome(
                    r,
                    old(self).history()[k],
                    *is_taken,
                ),
            r == Err::<CompletedOp, EngineError>(EngineError::NotFound) ==> final(self).history() == old(self).history(),
    {
        let ghost before = self.history();
        let mut k: usize = self.completed.len();
        while k > 0
            invariant
                k <= self.completed.len(),
                before == self.history(),
                before == old(self).history(),
                self.journal() == old(self).journal(),
                forall|x: &str| is_taken.requires((x,)),
                forall|l: int| k <= l < before.len() ==> !#[trigger] matches_paths(before[l], source@, resolved@),
            decreases k,
        {
            let op = &self.completed[k - 1];
            if path_eq(op.source_path.as_str(), source) && path_eq(op.resolved_path.as_str(), resolved) {
                proof {
                    assert(before[k - 1] == op_view(*op));
                }
                let taken = self.completed.remove(k - 1);
                proof {
                    assert(ops_view(self.completed@) =~= before.remove(k - 1));
                    assert(matches_paths(before[k - 1], source@, resolved@));
                }
                let r = check_reversible(taken, is_taken);
                proof {
                    assert(undo_outcome(r, before[k - 1], *is_taken));
                    assert(r != Err::<CompletedOp, EngineError>(EngineError::NotFound));
                }
                return r;
            }
            proof {
                assert(before[k - 1] == op_view(*op));
            }
            k = k - 1;
        }
        proof {
            assert(!(exists|l: int| 0 <= l < before.len() && #[trigger] matches_paths(before[l], source@, resolved@)));
        }
        Err(EngineError::NotFound)
    }
}

/// Operation `op` was recorded for `source` and `resolved` (as paths).
pub open spec fn matches_paths(op: (OperationKind, Seq<char>, Seq<char>), source: Seq<char>, resolved: Seq<char>) -> bool {
    spec_path_eq(op.1, source) && spec_path_eq(op.2, resolved)
}

/// What reversing `op` comes to, given what `is_taken` answered.
pub open spec fn undo_outcome<F: Fn(&str) -> bool>(
    r: Result<CompletedOp, EngineError>,
    op: (OperationKind, Seq<char>, Seq<char>),
    is_taken: F,
) -> bool {
    match op.0 {
        OperationKind::Move => match r {
            Ok(c) => op_view(c) == op && answered(is_taken, op.1, false),
            Err(e) => e == EngineError::SourceExists && answered(is_taken, op.1, true),
        },
        OperationKind::Copy => r matches Ok(c) && op_view(c) == op,
        OperationKind::DeleteFolder => match r {
            Ok(c) => op_view(c) == op && answered(is_taken, op.1, false),
            Err(e) => e == EngineError::FolderExists && answered(is_taken, op.1, true),
        },
        _ => r == Err::<CompletedOp, EngineError>(EngineError::NotUndoable),
    }
}

fn check_reversible<F: Fn(&str) -> bool>(last: CompletedOp, is_taken: &F) -> (r: Result<CompletedOp, EngineError>)
    requires
        forall|x: &str| is_taken.requires((x,)),
    ensures
        undo_outcome(r, op_view(last), *is_taken),
{
    match last.kind {
        OperationKind::Move => {
            let taken = is_taken(last.source_path.as_str());
            if taken {
                assert(answered(*is_taken, last.source_path@, true));
                Err(EngineError::SourceExists)
            } else {
                assert(answered(*is_taken, last.source_path@, false));
                Ok(last)
            }
        },
        OperationKind::Copy => Ok(last),
        OperationKind::DeleteFolder => {
            let taken = is_taken(last.source_path.as_str());
            if taken {
                assert(answered(*is_taken, last.source_path@, true));
                Err(EngineError::FolderExists)
            } else {
                assert(answered(*is_taken, last.source_path@, false));
                Ok(last)
            }
        },
        _ => Err(EngineError::NotUndoable),
    }
}


// ---------------------------------------------------------------------------
// Journal records
// ---------------------------------------------------------------------------

pub open spec fn kind_name(k: OperationKind) -> Seq<char> {
    match k {
        OperationKind::Move => "Move"@,
        OperationKind::Copy => "Copy"@,
        OperationKind::DeleteFolder => "DeleteFolder"@,
        OperationKind::UndoMove => "UndoMove"@,
        OperationKind::UndoCopy => "UndoCopy"@,
        OperationKind::UndoDeleteFolder => "UndoDeleteFolder"@,
    }
}

pub open spec fn status_name(s: OperationStatus) -> Seq<char> {
    match s {
        OperationStatus::Intent => "Intent"@,
        OperationStatus::Succeeded => "Succeeded"@,
        OperationStatus::Failed => "Failed"@,
    }
}

fn kind_name_exec(k: OperationKind) -> (r: &'static str)
    ensures
        r@ == kind_name(k),
{
    match k {
        OperationKind::Move => "Move",
        OperationKind::Copy => "Copy",
        OperationKind::DeleteFolder => "DeleteFolder",
        OperationKind::UndoMove => "UndoMove",
        OperationKind::UndoCopy => "UndoCopy",
        OperationKind::UndoDeleteFolder => "UndoDeleteFolder",
    }
}

fn status_name_exec(s: OperationStatus) -> (r: &'static str)
    ensures
        r@ == status_name(s),
{
    match s {
        OperationStatus::Intent => "Intent",
        OperationStatus::Succeeded => "Succeeded",
        OperationStatus::Failed => "Failed",
    }
}

/// The message of a journal record: the kind and the status, as in
/// `"Move Intent"`.
pub fn journal_message(kind: OperationKind, status: OperationStatus) -> (r: String)
    ensures
        r@ == kind_name(kind) + " "@ + status_name(status),
{
    let mut m = owned(kind_name_exec(kind));
    push_str(&mut m, " ");
    push_str(&mut m, status_name_exec(status));
    m
}

/// The journal record that reversing `op` leaves (always with status
/// `Succeeded`): the undo kind and its (source, resolved) paths: a move or
/// folder delete goes from where it ended up back to where it started, a
/// copy's duplicate is removed where it is. Undo records have none.
pub fn undo_record(op: &CompletedOp) -> (r: Option<(OperationKind, String, String)>)
    ensures
        match op.kind {
            OperationKind::Move => r matches Some(t) && t.0 == OperationKind::UndoMove && t.1@ == op.resolved_path@
                && t.2@ == op.source_path@,
            OperationKind::Copy => r matches Some(t) && t.0 == OperationKind::UndoCopy && t.1@ == op.resolved_path@
                && t.2@ == op.resolved_path@,
            OperationKind::DeleteFolder => r matches Some(t) && t.0 == OperationKind::UndoDeleteFolder && t.1@
                == op.resolved_path@ && t.2@ == op.source_path@,
            _ => r is None,
        },
{
    match op.kind {
        OperationKind::Move => Some((OperationKind::UndoMove, owned(op.resolved_path.as_str()), owned(op.source_path.as_str()))),
        OperationKind::Copy => Some((OperationKind::UndoCopy, owned(op.resolved_path.as_str()), owned(op.resolved_path.as_str()))),
        OperationKind::DeleteFolder => Some(
            (OperationKind::UndoDeleteFolder, owned(op.resolved_path.as_str()), owned(op.source_path.as_str())),
        ),
        _ => None,
    }
}

// ---------------------------------------------------------------------------
// Laws
// ---------------------------------------------------------------------------

/// Renaming (trash, folder delete, the default policy) and skipping never
/// clobber: whenever a destination is planned under them, the caller
/// reported that path free.
pub proof fn lemma_plan_never_clobbers<F: Fn(&str) -> bool>(
    r: Result<String, EngineError>,
    requested: Seq<char>,
    policy: CollisionPolicy,
    is_taken: F,
)
    requires
        policy != CollisionPolicy::Overwrite,
        collision_outcome(r, requested, policy, is_taken),
    ensures
        r matches Ok(p) ==> answered(is_taken, p@, false),
{
    if r is Ok {
        let p = r->Ok_0;
        if !(p@ == requested && answered(is_taken, requested, false)) {
            let i = choose|i: nat|
                first_index() <= i < index_limit() && p@ == #[trigger] candidate(requested, i) && answered(
                    is_taken,
                    candidate(requested, i),
                    false,
                ) && forall|j: nat| first_index() <= j < i ==> answered(is_taken, #[trigger] candidate(requested, j), true);
            assert(answered(is_taken, candidate(requested, i), false));
        }
    }
}

/// Undo is last in, first out: once an operation is recorded, the next undo
/// examines exactly that operation and leaves the history as it was before
/// the record.
pub proof fn lemma_record_then_undo(
    before: Seq<(OperationKind, Seq<char>, Seq<char>)>,
    recorded: Seq<(OperationKind, Seq<char>, Seq<char>)>,
    op: (OperationKind, Seq<char>, Seq<char>),
)
    requires
        recorded == before.push(op),
    ensures
        recorded.len() > 0,
        recorded.last() == op,
        recorded.drop_last() == before,
{
    assert(recorded.drop_last() =~= before);
}

/// The history after recording each of `ops` in turn.
pub open spec fn after_records(
    h: Seq<(OperationKind, Seq<char>, Seq<char>)>,
    ops: Seq<(OperationKind, Seq<char>, Seq<char>)>,
) -> Seq<(OperationKind, Seq<char>, Seq<char>)>
    decreases ops.len(),
{
    if ops.len() == 0 {
        h
    } else {
        after_records(h, ops.drop_last()).push(ops.last())
    }
}

/// The history after `u` successful undos.
pub open spec fn after_undos(h: Seq<(OperationKind, Seq<char>, Seq<char>)>, u: nat) -> Seq<
    (OperationKind, Seq<char>, Seq<char>),
>
    decreases u,
{
    if u == 0 {
        h
    } else {
        after_undos(h, (u - 1) as nat).drop_last()
    }
}

proof fn lemma_after_records_len(
    h: Seq<(OperationKind, Seq<char>, Seq<char>)>,
    ops: Seq<(OperationKind, Seq<char>, Seq<char>)>,
)
    ensures
        after_records(h, ops).len() == h.len() + ops.len(),
    decreases ops.len(),
{
    if ops.len() > 0 {
        lemma_after_records_len(h, ops.drop_last());
    }
}

proof fn lemma_after_undos_len(h: Seq<(OperationKind, Seq<char>, Seq<char>)>, u: nat)
    requires
        u <= h.len(),
    ensures
        after_undos(h, u).len() == h.len() - u,
    decreases u,
{
    if u > 0 {
        lemma_after_undos_len(h, (u - 1) as nat);
    }
}

/// A fresh engine has nothing to undo; after `m` recorded operations and
/// `u <= m` successful undos, there is something to undo exactly when
/// `u < m`.
pub proof fn lemma_can_undo_after(ops: Seq<(OperationKind, Seq<char>, Seq<char>)>, u: nat)
    requires
        u <= ops.len(),
    ensures
        ({
            let h = after_undos(after_records(Seq::empty(), ops), u);
            &&& h.len() == ops.len() - u
            &&& (h.len() > 0) == (u < ops.len())
        }),
{
    lemma_after_records_len(Seq::empty(), ops);
    lemma_after_undos_len(after_records(Seq::empty(), ops), u);
}

// ---------------------------------------------------------------------------
// Moving across volumes
// ---------------------------------------------------------------------------

/// What follows copying a file to another volume, in a move that could not
/// rename.
#[derive(Debug, Clone, Copy, PartialEq, Eq, Structural)]
pub enum CrossDeviceStep {
    /// The copy is complete: remove the source.
    RemoveSource,
    /// The copy is short: remove it, keep the source, and fail.
    RemoveCopyAndFail,
}

/// Decide the step after a cross-volume copy of `copied` bytes: the source
/// is removed only once the copy is as long as the source
/// (`source_len`; when the source cannot be statted, the copy is trusted).
pub fn cross_device_step(copied: u64, source_len: Option<u64>) -> (r: CrossDeviceStep)
    ensures
        r == (if copied == (match source_len {
            Some(n) => n,
            None => copied,
        }) {
            CrossDeviceStep::RemoveSource
        } else {
            CrossDeviceStep::RemoveCopyAndFail
        }),
{
    let expected = match source_len {
        Some(n) => n,
        None => copied,
    };
    if copied == expected {
        CrossDeviceStep::RemoveSource
    } else {
        CrossDeviceStep::RemoveCopyAndFail
    }
}

/// The value of a decimal digit character.
pub open spec fn digit_value(ch: char) -> int {
    ch as int - '0' as int
}

/// The number a string of decimal digits reads as, most significant first.
pub open spec fn read_decimal(s: Seq<char>) -> int
    decreases s.len(),
{
    if s.len() == 0 {
        0
    } else {
        read_decimal(s.drop_last()) * 10 + digit_value(s.last())
    }
}

/// The number in a rename candidate is the usual decimal writing of the
/// index: only digits, no leading zero, and reading it back gives the index
/// (so index 10 is written `10`, index 12 `12`).
pub proof fn lemma_decimal_reads_back(n: nat)
    ensures
        decimal(n).len() >= 1,
        forall|k: int| 0 <= k < decimal(n).len() ==> '0' <= #[trigger] decimal(n)[k] <= '9',
        n > 0 ==> decimal(n)[0] != '0',
        read_decimal(decimal(n)) == n,
    decreases n,
{
    if n < 10 {
        let d = decimal(n);
        assert(d =~= seq![digit_char(n as int)]);
        assert(d.drop_last() =~= Seq::<char>::empty());
        assert(digit_value(digit_char(n as int)) == n);
        assert(read_decimal(d.drop_last()) == 0);
        assert(read_decimal(d) == read_decimal(d.drop_last()) * 10 + digit_value(d.last()));
    } else {
        let m = n / 10;
        lemma_decimal_reads_back(m);
        let d = decimal(n);
        let dm = decimal(m);
        assert(d == dm.push(digit_char((n % 10) as int)));
        assert(d.drop_last() =~= dm);
        assert(d[0] == dm[0]);
        assert(digit_value(digit_char((n % 10) as int)) == n % 10);
        assert(m * 10 + n % 10 == n) by (nonlinear_arith)
            requires
                m == n / 10,
        ;
        assert(read_decimal(d) == read_decimal(dm) * 10 + digit_value(d.last()));
        assert forall|k: int| 0 <= k < d.len() implies '0' <= #[trigger] d[k] <= '9' by {
            if k < dm.len() {
                assert(d[k] == dm[k]);
            }
        }
    }
}

/// Different indices give different numbered names, so the rename search
/// never tries one name twice.
pub proof fn lemma_numbered_names_differ(stem: Seq<char>, ext: Option<Seq<char>>, i: nat, j: nat)
    requires
        numbered_name(stem, ext, i) == numbered_name(stem, ext, j),
    ensures
        i == j,
{
    let p = stem + seq![' ', '('];
    let tail = match ext {
        Some(e) => seq![')'] + seq!['.'] + e,
        None => seq![')'],
    };
    let di = decimal(i);
    let dj = decimal(j);
    assert(numbered_name(stem, ext, i) =~= p + di + tail);
    assert(numbered_name(stem, ext, j) =~= p + dj + tail);
    let ni = p + di + tail;
    let nj = p + dj + tail;
    assert(di.len() == dj.len());
    assert forall|k: int| 0 <= k < di.len() implies di[k] == dj[k] by {
        assert(ni[p.len() + k] == di[k]);
        assert(nj[p.len() + k] == dj[k]);
    }
    assert(di =~= dj);
    lemma_decimal_reads_back(i);
    lemma_decimal_reads_back(j);
}
} // verus!
