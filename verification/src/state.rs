//! The review-state store: viewed markers and comments, partitioned by
//! review scope (repository, branch, commit).

use crate::clock::seconds_since_epoch;
use crate::error::ErrorKind;
use crate::text::{
    decimal, lemma_decimal_is_injective, lemma_decimal_shape, push_decimal, str_eq,
};
use vstd::prelude::*;

verus! {

/// A review comment.
#[derive(Debug)]
pub struct Comment {
    pub id: String,
    pub file_path: String,
    pub line_number: Option<usize>,
    pub text: String,
    pub timestamp: u64,
    pub branch: String,
    pub commit: String,
    pub resolved: bool,
}

/// The mathematical value of a [`Comment`].
pub struct CommentView {
    pub id: Seq<char>,
    pub file_path: Seq<char>,
    pub line_number: Option<usize>,
    pub text: Seq<char>,
    pub timestamp: u64,
    pub branch: Seq<char>,
    pub commit: Seq<char>,
    pub resolved: bool,
}

impl View for Comment {
    type V = CommentView;

    open spec fn view(&self) -> CommentView {
        CommentView {
            id: self.id@,
            file_path: self.file_path@,
            line_number: self.line_number,
            text: self.text@,
            timestamp: self.timestamp,
            branch: self.branch@,
            commit: self.commit@,
            resolved: self.resolved,
        }
    }
}

impl Clone for Comment {
    fn clone(&self) -> (copy: Self)
        ensures
            copy@ == self@,
    {
        Comment {
            id: self.id.clone(),
            file_path: self.file_path.clone(),
            line_number: self.line_number,
            text: self.text.clone(),
            timestamp: self.timestamp,
            branch: self.branch.clone(),
            commit: self.commit.clone(),
            resolved: self.resolved,
        }
    }
}

/// The review state of one scope.
#[derive(Debug)]
pub struct ScopeState {
    pub repo_path: String,
    pub branch: String,
    pub commit: String,
    pub viewed_files: Vec<String>,
    pub comments: Vec<Comment>,
}

/// A review scope: all state is partitioned by this triple.
pub struct ScopeKey {
    pub repo_path: Seq<char>,
    pub branch: Seq<char>,
    pub commit: Seq<char>,
}

/// The mathematical value of a [`ScopeState`].
pub struct ScopeView {
    pub key: ScopeKey,
    pub viewed: Seq<Seq<char>>,
    pub comments: Seq<CommentView>,
}

/// The values of a sequence of strings.
pub open spec fn strings_of(strings: Seq<String>) -> Seq<Seq<char>> {
    strings.map_values(|s: String| s@)
}

/// The values of a sequence of comments.
pub open spec fn comments_of(comments: Seq<Comment>) -> Seq<CommentView> {
    comments.map_values(|c: Comment| c@)
}

impl View for ScopeState {
    type V = ScopeView;

    open spec fn view(&self) -> ScopeView {
        ScopeView {
            key: scope_key(self.repo_path@, self.branch@, self.commit@),
            viewed: strings_of(self.viewed_files@),
            comments: comments_of(self.comments@),
        }
    }
}

/// The values of a sequence of scopes.
pub open spec fn scopes_of(scopes: Seq<ScopeState>) -> Seq<ScopeView> {
    scopes.map_values(|s: ScopeState| s@)
}

/// The scope of `commit` on `branch` of the repository `repo_path`.
pub open spec fn scope_key(repo_path: Seq<char>, branch: Seq<char>, commit: Seq<char>) -> ScopeKey {
    ScopeKey { repo_path, branch, commit }
}

/// No two scope records have the same key.
pub open spec fn keys_distinct(scopes: Seq<ScopeView>) -> bool {
    forall|i: int, j: int|
        0 <= i < j < scopes.len() ==> (#[trigger] scopes[i]).key != (#[trigger] scopes[j]).key
}

/// No scope has a path twice among its viewed files.
pub open spec fn paths_distinct(scopes: Seq<ScopeView>) -> bool {
    forall|i: int| 0 <= i < scopes.len() ==> (#[trigger] scopes[i]).viewed.no_duplicates()
}

/// Whether a record exists for the scope `key`.
pub open spec fn has_scope(scopes: Seq<ScopeView>, key: ScopeKey) -> bool {
    exists|i: int| 0 <= i < scopes.len() && (#[trigger] scopes[i]).key == key
}

/// The position of the record for `key`; meaningful when there is one.
pub open spec fn scope_index(scopes: Seq<ScopeView>, key: ScopeKey) -> int {
    choose|i: int| 0 <= i < scopes.len() && (#[trigger] scopes[i]).key == key
}

/// A scope in which nothing is viewed and nothing is commented.
pub open spec fn empty_scope(key: ScopeKey) -> ScopeView {
    ScopeView { key, viewed: Seq::empty(), comments: Seq::empty() }
}

/// The state of the scope `key`: its record, or the empty scope when no
/// record exists.
pub open spec fn scope_at(scopes: Seq<ScopeView>, key: ScopeKey) -> ScopeView {
    if has_scope(scopes, key) {
        scopes[scope_index(scopes, key)]
    } else {
        empty_scope(key)
    }
}

/// `scopes` with the record of `scope.key` set to `scope`: replaced where it
/// stands, or appended when the scope had no record.
pub open spec fn with_scope(scopes: Seq<ScopeView>, scope: ScopeView) -> Seq<ScopeView> {
    if has_scope(scopes, scope.key) {
        scopes.update(scope_index(scopes, scope.key), scope)
    } else {
        scopes.push(scope)
    }
}

/// A viewed list after marking `file`: unchanged when `file` is in it.
pub open spec fn marked(viewed: Seq<Seq<char>>, file: Seq<char>) -> Seq<Seq<char>> {
    if viewed.contains(file) {
        viewed
    } else {
        viewed.push(file)
    }
}

/// `paths` with every repeated path dropped: what marking the paths one
/// after the other leaves.
pub open spec fn without_repeats(paths: Seq<Seq<char>>) -> Seq<Seq<char>>
    decreases paths.len(),
{
    if paths.len() == 0 {
        paths
    } else {
        marked(without_repeats(paths.drop_last()), paths.last())
    }
}

/// The record that is kept for a scope read back from a document: the
/// scope with the repeats among its viewed files dropped.
pub open spec fn restored(scope: ScopeView) -> ScopeView {
    ScopeView { viewed: without_repeats(scope.viewed), ..scope }
}

/// The test that a path is another one than `file`.
pub open spec fn other_than(file: Seq<char>) -> spec_fn(Seq<char>) -> bool {
    |f: Seq<char>| f != file
}

/// A viewed list after unmarking `file`: every occurrence is gone, the
/// rest keeps its order.
pub open spec fn unmarked(viewed: Seq<Seq<char>>, file: Seq<char>) -> Seq<Seq<char>> {
    viewed.filter(other_than(file))
}

/// The test that a comment is attached to `file`.
pub open spec fn attached_to(file: Seq<char>) -> spec_fn(CommentView) -> bool {
    |c: CommentView| c.file_path == file
}

/// The comments on `file`, in their order.
pub open spec fn on_file(comments: Seq<CommentView>, file: Seq<char>) -> Seq<CommentView> {
    comments.filter(attached_to(file))
}

/// The id of the comment created at `timestamp` as number `count` of its
/// scope: both numerals, joined by a hyphen.
pub open spec fn comment_id(timestamp: u64, count: nat) -> Seq<char> {
    decimal(timestamp as nat) + seq!['-'] + decimal(count)
}

/// The comment that an add operation creates in the scope `key` when the
/// scope already holds `count` comments.
pub open spec fn new_comment(
    key: ScopeKey,
    file: Seq<char>,
    line_number: Option<usize>,
    text: Seq<char>,
    timestamp: u64,
    count: nat,
) -> CommentView {
    CommentView {
        id: comment_id(timestamp, count),
        file_path: file,
        line_number,
        text,
        timestamp,
        branch: key.branch,
        commit: key.commit,
        resolved: false,
    }
}

/// Whether some comment has the id `id`.
pub open spec fn has_id(comments: Seq<CommentView>, id: Seq<char>) -> bool {
    exists|i: int| 0 <= i < comments.len() && (#[trigger] comments[i]).id == id
}

/// The position of the first comment with the id `id`; meaningful when
/// there is one.
pub open spec fn first_with_id(comments: Seq<CommentView>, id: Seq<char>) -> int {
    choose|i: int|
        0 <= i < comments.len() && (#[trigger] comments[i]).id == id && forall|j: int|
            0 <= j < i ==> (#[trigger] comments[j]).id != id
}

/// `comments` after resolving `id`: the first comment with that id is
/// resolved, everything else is as before.
pub open spec fn resolved(comments: Seq<CommentView>, id: Seq<char>) -> Seq<CommentView> {
    if has_id(comments, id) {
        let i = first_with_id(comments, id);
        comments.update(i, CommentView { resolved: true, ..comments[i] })
    } else {
        comments
    }
}

/// The store after marking `file` viewed in the scope `key`.
pub open spec fn after_mark(scopes: Seq<ScopeView>, key: ScopeKey, file: Seq<char>) -> Seq<
    ScopeView,
> {
    let scope = scope_at(scopes, key);
    with_scope(scopes, ScopeView { viewed: marked(scope.viewed, file), ..scope })
}

/// The store after unmarking `file` in the scope `key`; a scope without a
/// record gets none.
pub open spec fn after_unmark(scopes: Seq<ScopeView>, key: ScopeKey, file: Seq<char>) -> Seq<
    ScopeView,
> {
    if has_scope(scopes, key) {
        let scope = scope_at(scopes, key);
        with_scope(scopes, ScopeView { viewed: unmarked(scope.viewed, file), ..scope })
    } else {
        scopes
    }
}

/// The store after appending `comment` to the scope `key`.
pub open spec fn after_comment(scopes: Seq<ScopeView>, key: ScopeKey, comment: CommentView) -> Seq<
    ScopeView,
> {
    let scope = scope_at(scopes, key);
    with_scope(scopes, ScopeView { comments: scope.comments.push(comment), ..scope })
}

/// The store after resolving the comment `id` of the scope `key`; a scope
/// without a record gets none.
pub open spec fn after_resolve(scopes: Seq<ScopeView>, key: ScopeKey, id: Seq<char>) -> Seq<
    ScopeView,
> {
    if has_scope(scopes, key) {
        let scope = scope_at(scopes, key);
        with_scope(scopes, ScopeView { comments: resolved(scope.comments, id), ..scope })
    } else {
        scopes
    }
}

/// In a store with distinct keys, the record at position `i` is the one
/// that `scope_index` finds for its key.
pub proof fn lemma_scope_index_is_unique(scopes: Seq<ScopeView>, i: int)
    requires
        keys_distinct(scopes),
        0 <= i < scopes.len(),
    ensures
        has_scope(scopes, scopes[i].key),
        scope_index(scopes, scopes[i].key) == i,
{
    let j = scope_index(scopes, scopes[i].key);
    if j < i {
        assert(scopes[j].key != scopes[i].key);
    } else if i < j {
        assert(scopes[i].key != scopes[j].key);
    }
}

/// Setting a scope keeps the keys distinct, and afterwards that scope
/// reads as what was set while every other scope reads as before.
pub proof fn lemma_set_then_read(scopes: Seq<ScopeView>, scope: ScopeView, key: ScopeKey)
    requires
        keys_distinct(scopes),
    ensures
        keys_distinct(with_scope(scopes, scope)),
        scope_at(with_scope(scopes, scope), key) == if key == scope.key {
            scope
        } else {
            scope_at(scopes, key)
        },
{
    let after = with_scope(scopes, scope);
    let at = if has_scope(scopes, scope.key) {
        scope_index(scopes, scope.key)
    } else {
        scopes.len() as int
    };
    assert(after[at] == scope);
    assert forall|i: int, j: int| 0 <= i < j < after.len() implies (#[trigger] after[i]).key != (
    #[trigger] after[j]).key by {
        if has_scope(scopes, scope.key) {
            assert(scopes[i].key != scopes[j].key);
        } else if j == at {
            assert(scopes[i].key != scope.key);
        } else {
            assert(scopes[i].key != scopes[j].key);
        }
    }
    lemma_scope_index_is_unique(after, at);
    if key != scope.key {
        if has_scope(scopes, key) {
            let k = scope_index(scopes, key);
            assert(after[k] == scopes[k]);
            lemma_scope_index_is_unique(after, k);
        } else if has_scope(after, key) {
            let k = scope_index(after, key);
            assert(scopes[k].key == key);
        }
    }
}

/// Marking then asking: a file that was just marked is viewed, and marking
/// it once more changes nothing.
pub proof fn lemma_mark_then_viewed(scopes: Seq<ScopeView>, key: ScopeKey, file: Seq<char>)
    requires
        keys_distinct(scopes),
    ensures
        keys_distinct(after_mark(scopes, key, file)),
        scope_at(after_mark(scopes, key, file), key).viewed.contains(file),
        after_mark(after_mark(scopes, key, file), key, file) == after_mark(scopes, key, file),
{
    let scope = scope_at(scopes, key);
    let target = ScopeView { viewed: marked(scope.viewed, file), ..scope };
    let once = after_mark(scopes, key, file);
    lemma_set_then_read(scopes, target, key);
    if !scope.viewed.contains(file) {
        assert(target.viewed[scope.viewed.len() as int] == file);
    }
    assert(marked(target.viewed, file) == target.viewed);
    lemma_set_then_read(once, target, key);
    assert(has_scope(once, key)) by {
        if has_scope(scopes, key) {
            assert(once[scope_index(scopes, key)].key == key);
        } else {
            assert(once[scopes.len() as int].key == key);
        }
    }
    assert(with_scope(once, target) =~= once);
}

/// Unmarking then asking: a file that was just unmarked is not viewed, and
/// unmarking it once more changes nothing.
pub proof fn lemma_unmark_then_not_viewed(scopes: Seq<ScopeView>, key: ScopeKey, file: Seq<char>)
    requires
        keys_distinct(scopes),
    ensures
        keys_distinct(after_unmark(scopes, key, file)),
        !scope_at(after_unmark(scopes, key, file), key).viewed.contains(file),
        after_unmark(after_unmark(scopes, key, file), key, file) == after_unmark(
            scopes,
            key,
            file,
        ),
{
    let scope = scope_at(scopes, key);
    let keep = other_than(file);
    if has_scope(scopes, key) {
        let target = ScopeView { viewed: unmarked(scope.viewed, file), ..scope };
        let once = after_unmark(scopes, key, file);
        lemma_set_then_read(scopes, target, key);
        assert(!target.viewed.contains(file)) by {
            if target.viewed.contains(file) {
                scope.viewed.lemma_filter_contains_rev(keep, file);
            }
        }
        assert(unmarked(target.viewed, file) == target.viewed) by {
            assert forall|i: int| 0 <= i < target.viewed.len() implies keep(
                #[trigger] target.viewed[i],
            ) by {
                assert(target.viewed.contains(target.viewed[i]));
                scope.viewed.lemma_filter_contains_rev(keep, target.viewed[i]);
            }
            lemma_filter_all(target.viewed, keep);
        }
        assert(has_scope(once, key)) by {
            assert(once[scope_index(scopes, key)].key == key);
        }
        lemma_set_then_read(once, target, key);
        assert(with_scope(once, target) =~= once);
    } else {
        assert(!Seq::<Seq<char>>::empty().contains(file));
    }
}

/// Adding then listing: the new comment is the last of its scope, after
/// the comments that were there, and it is unresolved when it is the one
/// that an add operation creates.
pub proof fn lemma_comment_then_listed(scopes: Seq<ScopeView>, key: ScopeKey, comment: CommentView)
    requires
        keys_distinct(scopes),
    ensures
        keys_distinct(after_comment(scopes, key, comment)),
        scope_at(after_comment(scopes, key, comment), key).comments == scope_at(
            scopes,
            key,
        ).comments.push(comment),
        scope_at(after_comment(scopes, key, comment), key).comments.contains(comment),
        forall|
            file: Seq<char>,
            line_number: Option<usize>,
            text: Seq<char>,
            timestamp: u64,
            count: nat,
        |
            !(#[trigger] new_comment(key, file, line_number, text, timestamp, count)).resolved,
{
    let scope = scope_at(scopes, key);
    let target = ScopeView { comments: scope.comments.push(comment), ..scope };
    lemma_set_then_read(scopes, target, key);
    assert(target.comments[scope.comments.len() as int] == comment);
}

/// Ids do not collide unless both the timestamp and the count agree: two
/// comments of one scope, which never share a count, get different ids.
pub proof fn lemma_comment_id_is_injective(t1: u64, n1: nat, t2: u64, n2: nat)
    requires
        comment_id(t1, n1) == comment_id(t2, n2),
    ensures
        t1 == t2,
        n1 == n2,
{
    let a = decimal(t1 as nat);
    let b = decimal(t2 as nat);
    let id1 = comment_id(t1, n1);
    let id2 = comment_id(t2, n2);
    lemma_decimal_shape(t1 as nat);
    lemma_decimal_shape(t2 as nat);
    lemma_decimal_shape(n1);
    lemma_decimal_shape(n2);
    assert(id1[a.len() as int] == '-');
    assert(id2[b.len() as int] == '-');
    if a.len() < b.len() {
        assert(id2[a.len() as int] == b[a.len() as int]);
    } else if b.len() < a.len() {
        assert(id1[b.len() as int] == a[b.len() as int]);
    }
    assert(a =~= id1.subrange(0, a.len() as int));
    assert(b =~= id2.subrange(0, b.len() as int));
    assert(decimal(n1) =~= id1.subrange(a.len() as int + 1, id1.len() as int));
    assert(decimal(n2) =~= id2.subrange(b.len() as int + 1, id2.len() as int));
    lemma_decimal_is_injective(t1 as nat, t2 as nat);
    lemma_decimal_is_injective(n1, n2);
}

/// Every comment carries the id that an add operation gives at its
/// position: the case of a scope that only add operations have filled.
pub open spec fn ids_generated(comments: Seq<CommentView>) -> bool {
    forall|i: int| 0 <= i < comments.len() ==> generated_at((#[trigger] comments[i]).id, i as nat)
}

/// `id` is what an add operation gives, at some time, to the comment
/// number `count` of its scope.
pub open spec fn generated_at(id: Seq<char>, count: nat) -> bool {
    exists|t: u64| id == #[trigger] comment_id(t, count)
}

/// In a scope that only add operations have filled, the id of the next
/// comment is not in use, whatever the time.
pub proof fn lemma_generated_id_is_fresh(comments: Seq<CommentView>, timestamp: u64)
    requires
        ids_generated(comments),
    ensures
        !has_id(comments, comment_id(timestamp, comments.len())),
{
    let id = comment_id(timestamp, comments.len());
    if has_id(comments, id) {
        let i = choose|i: int| 0 <= i < comments.len() && (#[trigger] comments[i]).id == id;
        assert(generated_at(comments[i].id, i as nat));
        let t = choose|t: u64| comments[i].id == #[trigger] comment_id(t, i as nat);
        lemma_comment_id_is_injective(t, i as nat, timestamp, comments.len());
    }
}

/// Resolving then listing: the first comment with the given id is
/// resolved with all its other fields unchanged, every other comment is
/// as before, and resolving once more changes nothing.
pub proof fn lemma_resolve_then_listed(scopes: Seq<ScopeView>, key: ScopeKey, id: Seq<char>)
    requires
        keys_distinct(scopes),
    ensures
        keys_distinct(after_resolve(scopes, key, id)),
        ({
            let before = scope_at(scopes, key).comments;
            let after = scope_at(after_resolve(scopes, key, id), key).comments;
            &&& after.len() == before.len()
            &&& forall|i: int|
                0 <= i < before.len() ==> #[trigger] after[i] == if has_id(before, id) && i
                    == first_with_id(before, id) {
                    CommentView { resolved: true, ..before[i] }
                } else {
                    before[i]
                }
            &&& has_id(before, id) ==> 0 <= first_with_id(before, id) < before.len()
                && before[first_with_id(before, id)].id == id
        }),
        after_resolve(after_resolve(scopes, key, id), key, id) == after_resolve(scopes, key, id),
{
    let scope = scope_at(scopes, key);
    let before = scope.comments;
    if has_scope(scopes, key) {
        let target = ScopeView { comments: resolved(before, id), ..scope };
        let once = after_resolve(scopes, key, id);
        lemma_set_then_read(scopes, target, key);
        if has_id(before, id) {
            lemma_first_with_id(before, id);
        }
        assert(resolved(target.comments, id) =~= target.comments) by {
            if has_id(before, id) {
                let i = first_with_id(before, id);
                assert(target.comments[i].id == id);
                lemma_first_with_id(target.comments, id);
                let j = first_with_id(target.comments, id);
                if j < i {
                    assert(before[j].id == target.comments[j].id);
                } else if i < j {
                    assert(target.comments[i].id == id);
                }
            } else if has_id(target.comments, id) {
                lemma_first_with_id(target.comments, id);
            }
        }
        assert(has_scope(once, key)) by {
            assert(once[scope_index(scopes, key)].key == key);
        }
        lemma_set_then_read(once, target, key);
        assert(with_scope(once, target) =~= once);
    } else {
        assert(!has_id(before, id));
    }
}

/// Where some comment has the id, `first_with_id` is the position of the
/// first such comment.
pub proof fn lemma_first_with_id(comments: Seq<CommentView>, id: Seq<char>)
    requires
        has_id(comments, id),
    ensures
        0 <= first_with_id(comments, id) < comments.len(),
        comments[first_with_id(comments, id)].id == id,
        forall|j: int| 0 <= j < first_with_id(comments, id) ==> (#[trigger] comments[j]).id != id,
{
    let some = choose|i: int| 0 <= i < comments.len() && (#[trigger] comments[i]).id == id;
    lemma_first_exists(comments, id, some);
}

proof fn lemma_first_exists(comments: Seq<CommentView>, id: Seq<char>, upto: int)
    requires
        0 <= upto < comments.len(),
        comments[upto].id == id,
    ensures
        exists|i: int|
            0 <= i < comments.len() && (#[trigger] comments[i]).id == id && forall|j: int|
                0 <= j < i ==> (#[trigger] comments[j]).id != id,
    decreases upto,
{
    if exists|j: int| 0 <= j < upto && (#[trigger] comments[j]).id == id {
        let j = choose|j: int| 0 <= j < upto && (#[trigger] comments[j]).id == id;
        lemma_first_exists(comments, id, j);
    } else {
        assert(comments[upto].id == id && forall|j: int|
            0 <= j < upto ==> (#[trigger] comments[j]).id != id);
    }
}

/// Adding a comment and then resolving it by its id: where no earlier
/// comment of the scope has that id, the new comment is the one that is
/// resolved, with all its other fields unchanged, and the earlier comments
/// are as before.
pub proof fn lemma_resolve_added_comment(scopes: Seq<ScopeView>, key: ScopeKey, comment: CommentView)
    requires
        keys_distinct(scopes),
        !has_id(scope_at(scopes, key).comments, comment.id),
    ensures
        scope_at(
            after_resolve(after_comment(scopes, key, comment), key, comment.id),
            key,
        ).comments == scope_at(scopes, key).comments.push(
            CommentView { resolved: true, ..comment },
        ),
{
    let earlier = scope_at(scopes, key).comments;
    let added = after_comment(scopes, key, comment);
    lemma_comment_then_listed(scopes, key, comment);
    lemma_resolve_then_listed(added, key, comment.id);
    let listed = scope_at(added, key).comments;
    let n = earlier.len() as int;
    assert(listed[n].id == comment.id);
    lemma_first_with_id(listed, comment.id);
    let first = first_with_id(listed, comment.id);
    if first < n {
        assert(earlier[first].id == comment.id);
    }
    assert(scope_at(after_resolve(added, key, comment.id), key).comments =~= earlier.push(
        CommentView { resolved: true, ..comment },
    ));
}

/// What a filter keeps: `origin` gives, for each kept element, its
/// position in `s`; positions grow, so the order of `s` is preserved;
/// every kept element passes the test and every element that passes is
/// kept.
pub proof fn lemma_filter_is_exact<A>(s: Seq<A>, pred: spec_fn(A) -> bool) -> (origin: Seq<int>)
    ensures
        origin.len() == s.filter(pred).len(),
        forall|k: int|
            0 <= k < origin.len() ==> 0 <= #[trigger] origin[k] < s.len() && s.filter(pred)[k]
                == s[origin[k]] && pred(s[origin[k]]),
        forall|k: int, l: int| 0 <= k < l < origin.len() ==> origin[k] < origin[l],
        forall|i: int| 0 <= i < s.len() && pred(s[i]) ==> origin.contains(i),
    decreases s.len(),
{
    reveal(Seq::filter);
    if s.len() == 0 {
        Seq::<int>::empty()
    } else {
        let front = lemma_filter_is_exact(s.drop_last(), pred);
        let last = s.len() - 1;
        if pred(s.last()) {
            let origin = front.push(last);
            assert forall|i: int| 0 <= i < s.len() && pred(s[i]) implies origin.contains(i) by {
                if i < last {
                    assert(s.drop_last()[i] == s[i]);
                    assert(front.contains(i));
                    let k = choose|k: int| 0 <= k < front.len() && front[k] == i;
                    assert(origin[k] == i);
                } else {
                    assert(origin[front.len() as int] == i);
                }
            }
            origin
        } else {
            assert forall|i: int| 0 <= i < s.len() && pred(s[i]) implies front.contains(i) by {
                assert(s.drop_last()[i] == s[i]);
            }
            front
        }
    }
}

/// Listing with a file filter gives exactly the comments on that file, in
/// insertion order: `origin` gives, for each listed comment, its position
/// among all comments of the scope.
pub proof fn lemma_on_file_is_exact(comments: Seq<CommentView>, file: Seq<char>) -> (origin: Seq<
    int,
>)
    ensures
        origin.len() == on_file(comments, file).len(),
        forall|k: int|
            0 <= k < origin.len() ==> 0 <= #[trigger] origin[k] < comments.len() && on_file(
                comments,
                file,
            )[k] == comments[origin[k]] && comments[origin[k]].file_path == file,
        forall|k: int, l: int| 0 <= k < l < origin.len() ==> origin[k] < origin[l],
        forall|i: int|
            0 <= i < comments.len() && comments[i].file_path == file ==> origin.contains(i),
{
    lemma_filter_is_exact(comments, attached_to(file))
}

/// Scopes do not see each other: whatever is marked, unmarked, commented
/// or resolved in one scope, every other scope reads as before. State
/// recorded under one commit is therefore out of sight under another, and
/// in sight again, unchanged, on return.
pub proof fn lemma_scopes_are_independent(
    scopes: Seq<ScopeView>,
    key: ScopeKey,
    other: ScopeKey,
    file: Seq<char>,
    comment: CommentView,
    id: Seq<char>,
)
    requires
        keys_distinct(scopes),
        other != key,
    ensures
        scope_at(after_mark(scopes, key, file), other) == scope_at(scopes, other),
        scope_at(after_unmark(scopes, key, file), other) == scope_at(scopes, other),
        scope_at(after_comment(scopes, key, comment), other) == scope_at(scopes, other),
        scope_at(after_resolve(scopes, key, id), other) == scope_at(scopes, other),
{
    let scope = scope_at(scopes, key);
    lemma_set_then_read(scopes, ScopeView { viewed: marked(scope.viewed, file), ..scope }, other);
    lemma_set_then_read(
        scopes,
        ScopeView { viewed: unmarked(scope.viewed, file), ..scope },
        other,
    );
    lemma_set_then_read(
        scopes,
        ScopeView { comments: scope.comments.push(comment), ..scope },
        other,
    );
    lemma_set_then_read(scopes, ScopeView { comments: resolved(scope.comments, id), ..scope }, other);
}

/// A scope that was never written reads as empty: nothing viewed, no
/// comments.
pub proof fn lemma_unwritten_scope_is_empty(scopes: Seq<ScopeView>, key: ScopeKey, file: Seq<char>)
    requires
        !has_scope(scopes, key),
    ensures
        !scope_at(scopes, key).viewed.contains(file),
        scope_at(scopes, key).comments.len() == 0,
        on_file(scope_at(scopes, key).comments, file).len() == 0,
{
    reveal(Seq::filter);
}

/// Filtering a sequence whose elements all pass the test changes nothing.
proof fn lemma_filter_all<A>(s: Seq<A>, pred: spec_fn(A) -> bool)
    requires
        forall|i: int| 0 <= i < s.len() ==> pred(#[trigger] s[i]),
    ensures
        s.filter(pred) == s,
    decreases s.len(),
{
    reveal(Seq::filter);
    if s.len() > 0 {
        lemma_filter_all(s.drop_last(), pred);
        assert(s.drop_last().push(s.last()) =~= s);
    }
}

/// Setting the record of a scope that was just located (or created) at
/// position `i` gives the store with that scope set, and keeps the keys
/// and the viewed paths distinct.
proof fn lemma_set_scope(before: Seq<ScopeView>, ready: Seq<ScopeView>, i: int, target: ScopeView)
    requires
        keys_distinct(before),
        keys_distinct(ready),
        paths_distinct(ready),
        target.viewed.no_duplicates(),
        ready == with_scope(before, scope_at(before, target.key)),
        0 <= i < ready.len(),
        has_scope(ready, target.key),
        scope_index(ready, target.key) == i,
    ensures
        ready.update(i, target) == with_scope(before, target),
        keys_distinct(ready.update(i, target)),
        paths_distinct(ready.update(i, target)),
{
    let after = ready.update(i, target);
    assert(ready[i].key == target.key);
    if has_scope(before, target.key) {
        let j = scope_index(before, target.key);
        assert(ready =~= before);
        assert(after =~= before.update(j, target));
    } else {
        assert(ready =~= before.push(empty_scope(target.key)));
        if i < before.len() {
            assert(before[i].key == target.key);
        }
        assert(after =~= before.push(target));
    }
    assert forall|a: int, b: int| 0 <= a < b < after.len() implies (#[trigger] after[a]).key != (
    #[trigger] after[b]).key by {
        assert(ready[a].key != ready[b].key);
    }
    assert forall|a: int| 0 <= a < after.len() implies (
    #[trigger] after[a]).viewed.no_duplicates() by {
        if a != i {
            assert(ready[a].viewed.no_duplicates());
        }
    }
}

/// Marking keeps the paths of a viewed list distinct.
pub proof fn lemma_marked_distinct(viewed: Seq<Seq<char>>, file: Seq<char>)
    requires
        viewed.no_duplicates(),
    ensures
        marked(viewed, file).no_duplicates(),
{
    let after = marked(viewed, file);
    if !viewed.contains(file) {
        assert forall|i: int, j: int|
            0 <= i < after.len() && 0 <= j < after.len() && i != j implies after[i]
            != after[j] by {
            if i < viewed.len() && j < viewed.len() {
                assert(viewed[i] != viewed[j]);
            } else if i < viewed.len() {
                assert(viewed.contains(viewed[i]));
            } else {
                assert(viewed.contains(viewed[j]));
            }
        }
    }
}

/// Unmarking keeps the paths of a viewed list distinct.
pub proof fn lemma_unmarked_distinct(viewed: Seq<Seq<char>>, file: Seq<char>)
    requires
        viewed.no_duplicates(),
    ensures
        unmarked(viewed, file).no_duplicates(),
{
    let after = unmarked(viewed, file);
    let origin = lemma_filter_is_exact(viewed, other_than(file));
    assert forall|i: int, j: int|
        0 <= i < after.len() && 0 <= j < after.len() && i != j implies after[i] != after[j] by {
        if i < j {
            assert(origin[i] < origin[j]);
        } else {
            assert(origin[j] < origin[i]);
        }
        assert(viewed[origin[i]] != viewed[origin[j]]);
    }
}

/// Dropping repeats leaves each path once, and leaves exactly the paths
/// that were there.
pub proof fn lemma_without_repeats(paths: Seq<Seq<char>>)
    ensures
        without_repeats(paths).no_duplicates(),
        forall|path: Seq<char>|
            #[trigger] without_repeats(paths).contains(path) <==> paths.contains(path),
        paths.no_duplicates() ==> without_repeats(paths) == paths,
    decreases paths.len(),
{
    if paths.len() > 0 {
        let front = paths.drop_last();
        let kept = without_repeats(front);
        let after = without_repeats(paths);
        lemma_without_repeats(front);
        lemma_marked_distinct(kept, paths.last());
        assert forall|path: Seq<char>| #[trigger] after.contains(path) <==> paths.contains(
            path,
        ) by {
            if after.contains(path) {
                let k = choose|k: int| 0 <= k < after.len() && after[k] == path;
                if k < kept.len() {
                    assert(kept[k] == path);
                    assert(kept.contains(path));
                    let f = choose|f: int| 0 <= f < front.len() && front[f] == path;
                    assert(paths[f] == path);
                } else {
                    assert(paths[paths.len() - 1] == path);
                }
            }
            if paths.contains(path) {
                let p = choose|p: int| 0 <= p < paths.len() && paths[p] == path;
                if p < front.len() {
                    assert(front[p] == path);
                    assert(front.contains(path));
                    assert(kept.contains(path));
                    let k = choose|k: int| 0 <= k < kept.len() && kept[k] == path;
                    assert(after[k] == path);
                } else if kept.contains(path) {
                    let k = choose|k: int| 0 <= k < kept.len() && kept[k] == path;
                    assert(after[k] == path);
                } else {
                    assert(after[kept.len() as int] == path);
                }
            }
        }
        if paths.no_duplicates() {
            assert(front.no_duplicates());
            if kept.contains(paths.last()) {
                let f = choose|f: int| 0 <= f < front.len() && front[f] == paths.last();
                assert(paths[f] == paths[paths.len() - 1]);
            }
            assert(after =~= paths);
        }
    }
}

/// Every operation keeps the viewed paths of every scope distinct.
pub proof fn lemma_viewed_paths_stay_distinct(
    scopes: Seq<ScopeView>,
    key: ScopeKey,
    file: Seq<char>,
    comment: CommentView,
    id: Seq<char>,
    scope: ScopeView,
)
    requires
        keys_distinct(scopes),
        paths_distinct(scopes),
    ensures
        paths_distinct(after_mark(scopes, key, file)),
        paths_distinct(after_unmark(scopes, key, file)),
        paths_distinct(after_comment(scopes, key, comment)),
        paths_distinct(after_resolve(scopes, key, id)),
        paths_distinct(with_scope(scopes, restored(scope))),
{
    let held = scope_at(scopes, key);
    assert(held.viewed.no_duplicates()) by {
        if has_scope(scopes, key) {
            assert(scopes[scope_index(scopes, key)].viewed.no_duplicates());
        }
    }
    lemma_marked_distinct(held.viewed, file);
    lemma_unmarked_distinct(held.viewed, file);
    lemma_without_repeats(scope.viewed);
    lemma_set_keeps_paths(scopes, ScopeView { viewed: marked(held.viewed, file), ..held });
    lemma_set_keeps_paths(scopes, ScopeView { viewed: unmarked(held.viewed, file), ..held });
    lemma_set_keeps_paths(scopes, ScopeView { comments: held.comments.push(comment), ..held });
    lemma_set_keeps_paths(scopes, ScopeView { comments: resolved(held.comments, id), ..held });
    lemma_set_keeps_paths(scopes, restored(scope));
}

/// Setting a scope whose viewed paths are distinct keeps the viewed paths
/// of every scope distinct.
proof fn lemma_set_keeps_paths(scopes: Seq<ScopeView>, scope: ScopeView)
    requires
        paths_distinct(scopes),
        scope.viewed.no_duplicates(),
    ensures
        paths_distinct(with_scope(scopes, scope)),
{
    let after = with_scope(scopes, scope);
    assert forall|a: int| 0 <= a < after.len() implies (
    #[trigger] after[a]).viewed.no_duplicates() by {
        if a < scopes.len() && after[a] != scope {
            assert(scopes[a].viewed.no_duplicates());
        }
    }
}

/// The persisted record of viewed files and comments.
pub struct StateManager {
    scopes: Vec<ScopeState>,
}

impl View for StateManager {
    type V = Seq<ScopeView>;

    closed spec fn view(&self) -> Seq<ScopeView> {
        scopes_of(self.scopes@)
    }
}

impl StateManager {
    /// Every store holds each scope at most once, and each scope holds
    /// each viewed path at most once.
    #[verifier::type_invariant]
    pub open spec fn distinct(self) -> bool {
        keys_distinct(self@) && paths_distinct(self@)
    }

    /// An empty store.
    pub fn new() -> (store: Self)
        ensures
            store@ == Seq::<ScopeView>::empty(),
    {
        StateManager { scopes: Vec::new() }
    }

    /// The scope records, in the order in which the scopes first appeared.
    pub fn scopes(&self) -> (scopes: &Vec<ScopeState>)
        ensures
            scopes_of(scopes@) == self@,
            keys_distinct(self@),
            paths_distinct(self@),
    {
        proof {
            use_type_invariant(self);
        }
        &self.scopes
    }

    /// The position of the record for the scope.
    fn position(&self, repo_path: &str, branch: &str, commit: &str) -> (found: Option<usize>)
        ensures
            keys_distinct(self@),
            paths_distinct(self@),
            found is Some <==> has_scope(self@, scope_key(repo_path@, branch@, commit@)),
            found matches Some(i) ==> i == scope_index(
                self@,
                scope_key(repo_path@, branch@, commit@),
            ) && i < self@.len(),
    {
        proof {
            use_type_invariant(self);
        }
        let ghost key = scope_key(repo_path@, branch@, commit@);
        let mut i: usize = 0;
        while i < self.scopes.len()
            invariant
                i <= self.scopes.len(),
                keys_distinct(self@),
                paths_distinct(self@),
                key == scope_key(repo_path@, branch@, commit@),
                forall|j: int| 0 <= j < i ==> (#[trigger] self@[j]).key != key,
            decreases self.scopes.len() - i,
        {
            let scope = &self.scopes[i];
            if str_eq(scope.repo_path.as_str(), repo_path) && str_eq(scope.branch.as_str(), branch)
                && str_eq(scope.commit.as_str(), commit) {
                proof {
                    assert(self@[i as int].key == key);
                    lemma_scope_index_is_unique(self@, i as int);
                }
                return Some(i);
            }
            assert(self@[i as int].key != key);
            i += 1;
        }
        None
    }

    /// Whether `file_path` is marked viewed in the scope. A scope without
    /// a record has nothing viewed.
    pub fn is_file_viewed(&self, repo_path: &str, branch: &str, commit: &str, file_path: &str) -> (viewed:
        bool)
        ensures
            viewed == scope_at(self@, scope_key(repo_path@, branch@, commit@)).viewed.contains(
                file_path@,
            ),
    {
        match self.position(repo_path, branch, commit) {
            Some(i) => contains_string(&self.scopes[i].viewed_files, file_path),
            None => false,
        }
    }

    /// Takes the position of the scope's record, creating an empty record
    /// at the end of `scopes` when the scope has none.
    fn position_or_new(
        scopes: &mut Vec<ScopeState>,
        found: Option<usize>,
        repo_path: &str,
        branch: &str,
        commit: &str,
    ) -> (i: usize)
        requires
            keys_distinct(scopes_of(old(scopes)@)),
            paths_distinct(scopes_of(old(scopes)@)),
            found is Some <==> has_scope(
                scopes_of(old(scopes)@),
                scope_key(repo_path@, branch@, commit@),
            ),
            found matches Some(i) ==> i == scope_index(
                scopes_of(old(scopes)@),
                scope_key(repo_path@, branch@, commit@),
            ) && i < old(scopes)@.len(),
        ensures
            i < final(scopes)@.len(),
            final(scopes)@[i as int]@ == scope_at(
                scopes_of(old(scopes)@),
                scope_key(repo_path@, branch@, commit@),
            ),
            scopes_of(final(scopes)@) == with_scope(
                scopes_of(old(scopes)@),
                scope_at(scopes_of(old(scopes)@), scope_key(repo_path@, branch@, commit@)),
            ),
            keys_distinct(scopes_of(final(scopes)@)),
            paths_distinct(scopes_of(final(scopes)@)),
            has_scope(scopes_of(final(scopes)@), scope_key(repo_path@, branch@, commit@)),
            scope_index(scopes_of(final(scopes)@), scope_key(repo_path@, branch@, commit@)) == i,
    {
        let ghost before = scopes_of(scopes@);
        let ghost key = scope_key(repo_path@, branch@, commit@);
        match found {
            Some(i) => {
                assert(before.update(i as int, before[i as int]) =~= before);
                i
            },
            None => {
                let fresh = ScopeState {
                    repo_path: repo_path.to_owned(),
                    branch: branch.to_owned(),
                    commit: commit.to_owned(),
                    viewed_files: Vec::new(),
                    comments: Vec::new(),
                };
                assert(fresh@.viewed =~= Seq::<Seq<char>>::empty());
                assert(fresh@.comments =~= Seq::<CommentView>::empty());
                assert(fresh@ == empty_scope(key));
                scopes.push(fresh);
                let i = scopes.len() - 1;
                proof {
                    let after = scopes_of(scopes@);
                    assert(after =~= before.push(empty_scope(key)));
                    assert forall|a: int, b: int| 0 <= a < b < after.len() implies (
                    #[trigger] after[a]).key != (#[trigger] after[b]).key by {
                        if b == i {
                            assert(before[a].key != key);
                        }
                    }
                    assert forall|a: int| 0 <= a < after.len() implies (
                    #[trigger] after[a]).viewed.no_duplicates() by {
                        if a < i {
                            assert(before[a].viewed.no_duplicates());
                        }
                    }
                    lemma_scope_index_is_unique(after, i as int);
                }
                i
            },
        }
    }

    /// Marks `file_path` viewed in the scope, creating the scope's record
    /// on demand. Marking a file that is already marked changes nothing.
    pub fn mark_file_viewed(&mut self, repo_path: &str, branch: &str, commit: &str, file_path: &str)
        ensures
            final(self)@ == after_mark(
                old(self)@,
                scope_key(repo_path@, branch@, commit@),
                file_path@,
            ),
    {
        let ghost key = scope_key(repo_path@, branch@, commit@);
        let ghost before = self@;
        let found = self.position(repo_path, branch, commit);
        let mut scopes: Vec<ScopeState> = Vec::new();
        core::mem::swap(&mut self.scopes, &mut scopes);
        let i = Self::position_or_new(&mut scopes, found, repo_path, branch, commit);
        let ghost ready = scopes_of(scopes@);
        if !contains_string(&scopes[i].viewed_files, file_path) {
            let ghost viewed = strings_of(scopes[i as int].viewed_files@);
            scopes[i].viewed_files.push(file_path.to_owned());
            assert(strings_of(scopes[i as int].viewed_files@) =~= viewed.push(file_path@));
        }
        proof {
            let scope = scope_at(before, key);
            let target = ScopeView { viewed: marked(scope.viewed, file_path@), ..scope };
            assert(scopes_of(scopes@) =~= ready.update(i as int, target));
            assert(scope == ready[i as int]);
            lemma_marked_distinct(scope.viewed, file_path@);
            lemma_set_scope(before, ready, i as int, target);
        }
        self.scopes = scopes;
    }

    /// Unmarks `file_path` in the scope. Nothing changes when the scope has
    /// no record or the file is not marked.
    pub fn unmark_file_viewed(
        &mut self,
        repo_path: &str,
        branch: &str,
        commit: &str,
        file_path: &str,
    )
        ensures
            final(self)@ == after_unmark(
                old(self)@,
                scope_key(repo_path@, branch@, commit@),
                file_path@,
            ),
    {
        let ghost key = scope_key(repo_path@, branch@, commit@);
        let ghost before = self@;
        let found = self.position(repo_path, branch, commit);
        if let Some(i) = found {
            let mut scopes: Vec<ScopeState> = Vec::new();
            core::mem::swap(&mut self.scopes, &mut scopes);
            let mut viewed: Vec<String> = Vec::new();
            core::mem::swap(&mut scopes[i].viewed_files, &mut viewed);
            let remaining = without_string(viewed, file_path);
            scopes[i].viewed_files = remaining;
            proof {
                let scope = scope_at(before, key);
                let target = ScopeView { viewed: unmarked(scope.viewed, file_path@), ..scope };
                assert(before.update(i as int, before[i as int]) =~= before);
                assert(scopes_of(scopes@) =~= before.update(i as int, target));
                assert(scope == before[i as int]);
                lemma_unmarked_distinct(scope.viewed, file_path@);
                lemma_set_scope(before, before, i as int, target);
            }
            self.scopes = scopes;
        }
    }

    /// Appends a comment created at `timestamp` to the scope, creating the
    /// scope's record on demand, and returns the comment. Its id joins the
    /// timestamp and the number of comments the scope held before.
    pub fn add_comment_at(
        &mut self,
        repo_path: &str,
        branch: &str,
        commit: &str,
        file_path: &str,
        line_number: Option<usize>,
        text: String,
        timestamp: u64,
    ) -> (comment: Comment)
        ensures
            comment@ == new_comment(
                scope_key(repo_path@, branch@, commit@),
                file_path@,
                line_number,
                text@,
                timestamp,
                scope_at(old(self)@, scope_key(repo_path@, branch@, commit@)).comments.len(),
            ),
            final(self)@ == after_comment(
                old(self)@,
                scope_key(repo_path@, branch@, commit@),
                comment@,
            ),
    {
        let ghost key = scope_key(repo_path@, branch@, commit@);
        let ghost before = self@;
        let found = self.position(repo_path, branch, commit);
        let mut scopes: Vec<ScopeState> = Vec::new();
        core::mem::swap(&mut self.scopes, &mut scopes);
        let i = Self::position_or_new(&mut scopes, found, repo_path, branch, commit);
        let ghost ready = scopes_of(scopes@);
        let count = scopes[i].comments.len();
        let mut id = String::new();
        push_decimal(&mut id, timestamp);
        id.push('-');
        push_decimal(&mut id, count as u64);
        assert(id@ =~= comment_id(timestamp, count as nat));
        let comment = Comment {
            id,
            file_path: file_path.to_owned(),
            line_number,
            text,
            timestamp,
            branch: branch.to_owned(),
            commit: commit.to_owned(),
            resolved: false,
        };
        let stored = comment.clone();
        let ghost comments = comments_of(scopes[i as int].comments@);
        scopes[i].comments.push(stored);
        proof {
            assert(comments_of(scopes[i as int].comments@) =~= comments.push(comment@));
            let scope = scope_at(before, key);
            let target = ScopeView { comments: scope.comments.push(comment@), ..scope };
            assert(scopes_of(scopes@) =~= ready.update(i as int, target));
            assert(scope == ready[i as int]);
            lemma_set_scope(before, ready, i as int, target);
        }
        self.scopes = scopes;
        comment
    }

    /// Appends a comment stamped with the current time, as
    /// [`Self::add_comment_at`] does for that time. When the clock cannot
    /// be read as a time since the epoch, nothing changes.
    pub fn add_comment(
        &mut self,
        repo_path: &str,
        branch: &str,
        commit: &str,
        file_path: &str,
        line_number: Option<usize>,
        text: String,
    ) -> (added: Result<Comment, ErrorKind>)
        ensures
            match added {
                Ok(comment) => {
                    &&& comment@ == new_comment(
                        scope_key(repo_path@, branch@, commit@),
                        file_path@,
                        line_number,
                        text@,
                        comment.timestamp,
                        scope_at(
                            old(self)@,
                            scope_key(repo_path@, branch@, commit@),
                        ).comments.len(),
                    )
                    &&& final(self)@ == after_comment(
                        old(self)@,
                        scope_key(repo_path@, branch@, commit@),
                        comment@,
                    )
                },
                Err(e) => e == ErrorKind::ClockUnavailable && final(self)@ == old(self)@,
            },
    {
        match seconds_since_epoch() {
            Some(timestamp) => Ok(
                self.add_comment_at(
                    repo_path,
                    branch,
                    commit,
                    file_path,
                    line_number,
                    text,
                    timestamp,
                ),
            ),
            None => Err(ErrorKind::ClockUnavailable),
        }
    }

    /// The comments of the scope in insertion order: all of them, or those
    /// on `file_path` when a path is given. A scope without a record has
    /// none.
    pub fn get_comments(
        &self,
        repo_path: &str,
        branch: &str,
        commit: &str,
        file_path: Option<&str>,
    ) -> (listed: Vec<Comment>)
        ensures
            comments_of(listed@) == match file_path {
                Some(file) => on_file(
                    scope_at(self@, scope_key(repo_path@, branch@, commit@)).comments,
                    file@,
                ),
                None => scope_at(self@, scope_key(repo_path@, branch@, commit@)).comments,
            },
    {
        let mut listed: Vec<Comment> = Vec::new();
        match self.position(repo_path, branch, commit) {
            None => {
                assert(comments_of(listed@) =~= Seq::<CommentView>::empty());
                proof {
                    reveal(Seq::filter);
                }
                listed
            },
            Some(p) => {
                let comments = &self.scopes[p].comments;
                let ghost all = comments_of(comments@);
                let mut i: usize = 0;
                assert(comments_of(listed@) =~= Seq::<CommentView>::empty());
                assert(all.take(0) =~= Seq::<CommentView>::empty());
                proof {
                    reveal(Seq::filter);
                }
                while i < comments.len()
                    invariant
                        i <= comments.len(),
                        all == comments_of(comments@),
                        comments_of(listed@) == match file_path {
                            Some(file) => on_file(all.take(i as int), file@),
                            None => all.take(i as int),
                        },
                    decreases comments.len() - i,
                {
                    let ghost so_far = comments_of(listed@);
                    proof {
                        reveal(Seq::filter);
                        assert(all.take(i as int + 1).drop_last() =~= all.take(i as int));
                        assert(all.take(i as int + 1).last() == comments[i as int]@);
                    }
                    let wanted = match file_path {
                        Some(file) => str_eq(comments[i].file_path.as_str(), file),
                        None => true,
                    };
                    if wanted {
                        let copy = comments[i].clone();
                        listed.push(copy);
                        assert(comments_of(listed@) =~= so_far.push(comments[i as int]@));
                        assert(all.take(i as int + 1) =~= all.take(i as int).push(
                            comments[i as int]@,
                        ));
                    }
                    i += 1;
                }
                assert(all.take(comments.len() as int) =~= all);
                listed
            },
        }
    }

    /// Resolves the first comment of the scope whose id is `comment_id`.
    /// Nothing changes when the scope has no record or no such comment; a
    /// resolved comment stays resolved.
    pub fn resolve_comment(&mut self, repo_path: &str, branch: &str, commit: &str, comment_id: &str)
        ensures
            final(self)@ == after_resolve(
                old(self)@,
                scope_key(repo_path@, branch@, commit@),
                comment_id@,
            ),
    {
        let ghost key = scope_key(repo_path@, branch@, commit@);
        let ghost before = self@;
        let found = self.position(repo_path, branch, commit);
        if let Some(i) = found {
            let mut scopes: Vec<ScopeState> = Vec::new();
            core::mem::swap(&mut self.scopes, &mut scopes);
            let ghost comments = comments_of(scopes[i as int].comments@);
            match position_of_id(&scopes[i].comments, comment_id) {
                Some(c) => {
                    scopes[i].comments[c].resolved = true;
                    assert(comments_of(scopes[i as int].comments@) =~= comments.update(
                        c as int,
                        CommentView { resolved: true, ..comments[c as int] },
                    ));
                },
                None => {},
            }
            proof {
                let scope = scope_at(before, key);
                let target = ScopeView { comments: resolved(scope.comments, comment_id@), ..scope };
                assert(before.update(i as int, before[i as int]) =~= before);
                assert(scopes_of(scopes@) =~= before.update(i as int, target));
                assert(scope == before[i as int]);
                lemma_set_scope(before, before, i as int, target);
            }
            self.scopes = scopes;
        }
    }

    /// Sets the record of `scope`'s key to `scope`, as when a persisted
    /// store is read back; a later record for the same key replaces the
    /// earlier one. A path that stands more than once among the scope's
    /// viewed files is kept once, where it first stands.
    pub fn restore_scope(&mut self, scope: ScopeState)
        ensures
            final(self)@ == with_scope(old(self)@, restored(scope@)),
    {
        let ghost before = self@;
        let ghost target = restored(scope@);
        let found = self.position(
            scope.repo_path.as_str(),
            scope.branch.as_str(),
            scope.commit.as_str(),
        );
        let ScopeState { repo_path, branch, commit, viewed_files, comments } = scope;
        let record = ScopeState {
            repo_path,
            branch,
            commit,
            viewed_files: distinct_strings(viewed_files),
            comments,
        };
        assert(record@ == target);
        proof {
            lemma_without_repeats(scope@.viewed);
        }
        let mut scopes: Vec<ScopeState> = Vec::new();
        core::mem::swap(&mut self.scopes, &mut scopes);
        match found {
            Some(i) => {
                scopes[i] = record;
                assert(scopes_of(scopes@) =~= before.update(i as int, target));
                proof {
                    assert(before.update(i as int, before[i as int]) =~= before);
                    lemma_set_scope(before, before, i as int, target);
                }
            },
            None => {
                scopes.push(record);
                proof {
                    let after = scopes_of(scopes@);
                    assert(after =~= before.push(target));
                    assert forall|a: int, b: int| 0 <= a < b < after.len() implies (
                    #[trigger] after[a]).key != (#[trigger] after[b]).key by {
                        if b == before.len() {
                            assert(before[a].key != target.key);
                        }
                    }
                    lemma_set_keeps_paths(before, target);
                }
            },
        }
        self.scopes = scopes;
    }
}

/// Whether `strings` holds `wanted`.
fn contains_string(strings: &Vec<String>, wanted: &str) -> (found: bool)
    ensures
        found == strings_of(strings@).contains(wanted@),
{
    let mut i: usize = 0;
    while i < strings.len()
        invariant
            i <= strings.len(),
            forall|j: int| 0 <= j < i ==> (#[trigger] strings_of(strings@)[j]) != wanted@,
        decreases strings.len() - i,
    {
        if str_eq(strings[i].as_str(), wanted) {
            assert(strings_of(strings@)[i as int] == wanted@);
            return true;
        }
        i += 1;
    }
    false
}

/// `strings` with every repeated string dropped, the rest in order.
fn distinct_strings(strings: Vec<String>) -> (distinct: Vec<String>)
    ensures
        strings_of(distinct@) == without_repeats(strings_of(strings@)),
{
    let ghost all = strings_of(strings@);
    let mut distinct: Vec<String> = Vec::new();
    let mut i: usize = 0;
    assert(all.take(0) =~= Seq::<Seq<char>>::empty());
    assert(strings_of(distinct@) =~= Seq::<Seq<char>>::empty());
    while i < strings.len()
        invariant
            i <= strings.len(),
            all == strings_of(strings@),
            strings_of(distinct@) == without_repeats(all.take(i as int)),
        decreases strings.len() - i,
    {
        let ghost so_far = strings_of(distinct@);
        proof {
            assert(all.take(i as int + 1).drop_last() =~= all.take(i as int));
            assert(all.take(i as int + 1).last() == strings[i as int]@);
        }
        if !contains_string(&distinct, strings[i].as_str()) {
            let copy = strings[i].clone();
            distinct.push(copy);
            assert(strings_of(distinct@) =~= so_far.push(strings[i as int]@));
        }
        i += 1;
    }
    assert(all.take(strings.len() as int) =~= all);
    distinct
}

/// `strings` without every occurrence of `unwanted`, the rest in order.
fn without_string(strings: Vec<String>, unwanted: &str) -> (remaining: Vec<String>)
    ensures
        strings_of(remaining@) == unmarked(strings_of(strings@), unwanted@),
{
    let ghost all = strings_of(strings@);
    let mut remaining: Vec<String> = Vec::new();
    let mut i: usize = 0;
    proof {
        reveal(Seq::filter);
        assert(all.take(0) =~= Seq::<Seq<char>>::empty());
        assert(strings_of(remaining@) =~= Seq::<Seq<char>>::empty());
    }
    while i < strings.len()
        invariant
            i <= strings.len(),
            all == strings_of(strings@),
            strings_of(remaining@) == unmarked(all.take(i as int), unwanted@),
        decreases strings.len() - i,
    {
        let ghost so_far = strings_of(remaining@);
        proof {
            reveal(Seq::filter);
            assert(all.take(i as int + 1).drop_last() =~= all.take(i as int));
            assert(all.take(i as int + 1).last() == strings[i as int]@);
        }
        if !str_eq(strings[i].as_str(), unwanted) {
            let copy = strings[i].clone();
            remaining.push(copy);
            assert(strings_of(remaining@) =~= so_far.push(strings[i as int]@));
        }
        i += 1;
    }
    assert(all.take(strings.len() as int) =~= all);
    remaining
}

/// The position of the first comment whose id is `id`.
fn position_of_id(comments: &Vec<Comment>, id: &str) -> (found: Option<usize>)
    ensures
        found is Some <==> has_id(comments_of(comments@), id@),
        found matches Some(i) ==> i == first_with_id(comments_of(comments@), id@) && i
            < comments@.len(),
{
    let ghost all = comments_of(comments@);
    let mut i: usize = 0;
    while i < comments.len()
        invariant
            i <= comments.len(),
            all == comments_of(comments@),
            forall|j: int| 0 <= j < i ==> (#[trigger] all[j]).id != id@,
        decreases comments.len() - i,
    {
        if str_eq(comments[i].id.as_str(), id) {
            proof {
                assert(all[i as int].id == id@);
                let f = first_with_id(all, id@);
                if f < i {
                    assert(all[f].id != id@);
                } else if i < f {
                    assert(all[i as int].id != id@);
                }
            }
            return Some(i);
        }
        i += 1;
    }
    None
}

} // verus!
