//! The watch-set reconciler: one long-lived filesystem watcher, the set of
//! directories registered with it, and the set-difference reconciliation
//! that converges the one to a desired list.

use vstd::prelude::*;
use crate::textorder::contains_string;

verus! {

/// Whitespace, for the purpose of discarding blank watch entries.
pub open spec fn is_space_char(c: char) -> bool {
    c == ' ' || c == '\t' || c == '\n' || c == '\r'
}

/// A blank entry: empty or whitespace only.
pub open spec fn is_blank(s: Seq<char>) -> bool {
    forall|i: int| 0 <= i < s.len() ==> is_space_char(#[trigger] s[i])
}

/// Whether `s` is blank.
pub fn is_blank_str(s: &str) -> (r: bool)
    ensures
        r == is_blank(s@),
{
    let n = s.unicode_len();
    let mut i: usize = 0;
    while i < n
        invariant
            0 <= i <= n,
            n == s@.len(),
            forall|j: int| 0 <= j < i ==> is_space_char(#[trigger] s@[j]),
        decreases n - i,
    {
        let c = s.get_char(i);
        if !(c == ' ' || c == '\t' || c == '\n' || c == '\r') {
            return false;
        }
        i += 1;
    }
    true
}

/// No entry of `s` is repeated.
pub open spec fn distinct_texts(s: Seq<Seq<char>>) -> bool {
    forall|i: int, j: int| 0 <= i < j < s.len() ==> s[i] != s[j]
}

/// The first `n` entries of `s` with blank entries discarded and duplicates
/// dropped, keeping first occurrences in order.
pub open spec fn normalize_upto(s: Seq<Seq<char>>, n: int) -> Seq<Seq<char>>
    decreases n,
{
    if n <= 0 {
        Seq::empty()
    } else {
        let p = normalize_upto(s, n - 1);
        if is_blank(s[n - 1]) || p.contains(s[n - 1]) {
            p
        } else {
            p.push(s[n - 1])
        }
    }
}

/// `s` with blank entries discarded and duplicates dropped.
pub open spec fn normalized(s: Seq<Seq<char>>) -> Seq<Seq<char>> {
    normalize_upto(s, s.len() as int)
}

/// A normalized list holds exactly the non-blank entries of its input, each
/// once.
pub proof fn lemma_normalized(s: Seq<Seq<char>>, n: int)
    requires
        0 <= n <= s.len(),
    ensures
        distinct_texts(normalize_upto(s, n)),
        forall|x: Seq<char>|
            #[trigger] normalize_upto(s, n).contains(x) <==> (!is_blank(x) && exists|i: int|
                0 <= i < n && s[i] == x),
    decreases n,
{
    if n > 0 {
        lemma_normalized(s, n - 1);
        let p = normalize_upto(s, n - 1);
        let q = normalize_upto(s, n);
        if !(is_blank(s[n - 1]) || p.contains(s[n - 1])) {
            assert forall|i: int, j: int| 0 <= i < j < q.len() implies q[i] != q[j] by {
                if j < q.len() - 1 {
                    assert(q[i] == p[i] && q[j] == p[j]);
                } else {
                    assert(q[i] == p[i]);
                    assert(p.contains(p[i]));
                }
            }
        }
        assert forall|x: Seq<char>| #[trigger] q.contains(x) implies (!is_blank(x) && exists|i: int|
            0 <= i < n && s[i] == x) by {
            let k = choose|k: int| 0 <= k < q.len() && q[k] == x;
            if k < p.len() {
                assert(p[k] == x);
                assert(p.contains(x));
            } else {
                assert(x == s[n - 1]);
            }
        }
        assert forall|x: Seq<char>| !is_blank(x) && (exists|i: int| 0 <= i < n && s[i] == x)
            implies #[trigger] q.contains(x) by {
            let i = choose|i: int| 0 <= i < n && s[i] == x;
            if i < n - 1 {
                assert(p.contains(x));
                let k = choose|k: int| 0 <= k < p.len() && p[k] == x;
                assert(q[k] == x);
            } else {
                if p.contains(x) {
                    let k = choose|k: int| 0 <= k < p.len() && p[k] == x;
                    assert(q[k] == x);
                } else {
                    assert(q[q.len() - 1] == x);
                }
            }
        }
    }
}

/// The first `n` entries of `s` that `keep` also holds, in order.
pub open spec fn retained_upto(s: Seq<Seq<char>>, keep: Seq<Seq<char>>, n: int) -> Seq<Seq<char>>
    decreases n,
{
    if n <= 0 {
        Seq::empty()
    } else {
        let p = retained_upto(s, keep, n - 1);
        if keep.contains(s[n - 1]) {
            p.push(s[n - 1])
        } else {
            p
        }
    }
}

/// The entries of `s` that `keep` also holds, in order.
pub open spec fn retained(s: Seq<Seq<char>>, keep: Seq<Seq<char>>) -> Seq<Seq<char>> {
    retained_upto(s, keep, s.len() as int)
}

/// Retention keeps exactly the entries of both lists, keeps them distinct,
/// and keeps the whole list when nothing is dropped.
pub proof fn lemma_retained(s: Seq<Seq<char>>, keep: Seq<Seq<char>>, n: int)
    requires
        distinct_texts(s),
        0 <= n <= s.len(),
    ensures
        distinct_texts(retained_upto(s, keep, n)),
        forall|x: Seq<char>|
            #[trigger] retained_upto(s, keep, n).contains(x) <==> ((exists|i: int|
                0 <= i < n && s[i] == x) && keep.contains(x)),
        (forall|i: int| 0 <= i < n ==> keep.contains(#[trigger] s[i])) ==> retained_upto(s, keep, n)
            == s.subrange(0, n),
    decreases n,
{
    if n > 0 {
        lemma_retained(s, keep, n - 1);
        let p = retained_upto(s, keep, n - 1);
        let q = retained_upto(s, keep, n);
        if keep.contains(s[n - 1]) {
            assert forall|i: int, j: int| 0 <= i < j < q.len() implies q[i] != q[j] by {
                if j < q.len() - 1 {
                    assert(q[i] == p[i] && q[j] == p[j]);
                } else {
                    assert(q[i] == p[i]);
                    assert(p.contains(p[i]));
                }
            }
        }
        assert forall|x: Seq<char>| #[trigger] q.contains(x) implies ((exists|i: int|
            0 <= i < n && s[i] == x) && keep.contains(x)) by {
            let k = choose|k: int| 0 <= k < q.len() && q[k] == x;
            if k < p.len() {
                assert(p[k] == x);
                assert(p.contains(x));
            } else {
                assert(x == s[n - 1]);
            }
        }
        assert forall|x: Seq<char>| (exists|i: int| 0 <= i < n && s[i] == x) && keep.contains(x)
            implies #[trigger] q.contains(x) by {
            let i = choose|i: int| 0 <= i < n && s[i] == x;
            if i < n - 1 {
                assert(p.contains(x));
                let k = choose|k: int| 0 <= k < p.len() && p[k] == x;
                assert(q[k] == x);
            } else {
                if keep.contains(s[n - 1]) {
                    assert(q[q.len() - 1] == x);
                } else {
                    assert(p.contains(x));
                    let k = choose|k: int| 0 <= k < p.len() && p[k] == x;
                    assert(q[k] == x);
                }
            }
        }
        if forall|i: int| 0 <= i < n ==> keep.contains(#[trigger] s[i]) {
            assert(q =~= s.subrange(0, n));
        }
    }
}

/// Normalizes a desired directory list: blank entries are discarded and
/// duplicates dropped, keeping first occurrences in order.
pub fn normalize_dirs(dirs: Vec<String>) -> (r: Vec<String>)
    ensures
        r.deep_view() == normalized(dirs.deep_view()),
        distinct_texts(r.deep_view()),
{
    let ghost orig = dirs.deep_view();
    let mut rest = dirs;
    let mut r: Vec<String> = Vec::new();
    let ghost mut i: int = 0;
    proof {
        assert(r.deep_view() =~= normalize_upto(orig, 0));
        assert(rest.deep_view() =~= orig.skip(0));
    }
    while rest.len() > 0
        invariant
            0 <= i <= orig.len(),
            i + rest@.len() == orig.len(),
            rest.deep_view() == orig.skip(i),
            r.deep_view() == normalize_upto(orig, i),
        decreases rest@.len(),
    {
        let ghost prev = rest.deep_view();
        let ghost prev_vec = rest@;
        let d = rest.remove(0);
        proof {
            assert(d@ == prev[0]);
            assert(d@ == orig[i]);
            assert forall|k: int| 0 <= k < rest@.len() implies #[trigger] rest.deep_view()[k]
                == orig.skip(i + 1)[k] by {
                assert(rest@[k] == prev_vec[k + 1]);
                assert(prev[k + 1] == prev_vec[k + 1]@);
                assert(prev[k + 1] == orig.skip(i)[k + 1]);
            }
            assert(rest.deep_view() =~= orig.skip(i + 1));
        }
        let ghost r_prev = r.deep_view();
        if !is_blank_str(d.as_str()) && !contains_string(&r, &d) {
            r.push(d);
            proof {
                assert(r.deep_view() =~= r_prev.push(orig[i]));
            }
        }
        proof {
            assert(r.deep_view() =~= normalize_upto(orig, i + 1));
            i = i + 1;
        }
    }
    proof {
        lemma_normalized(orig, orig.len() as int);
    }
    r
}

/// The set a desired directory list converges the reconciler to: its
/// normalized entries, as a set.
pub open spec fn desired_set(dirs: Seq<Seq<char>>) -> Set<Seq<char>> {
    normalized(dirs).to_set()
}

#[verifier::external_type_specification]
#[verifier::external_body]
pub struct ExWatcher(notify::RecommendedWatcher);

/// Relies on notify's `Watcher::watch`: registers recursive observation of a
/// path with the operating system.  Success depends on the environment (the
/// path must exist and be watchable), so nothing is promised of the result.
#[verifier::external_body]
fn watch_recursive(w: &mut notify::RecommendedWatcher, path: &str) -> (r: Result<(), String>) {
    match notify::Watcher::watch(w, std::path::Path::new(path), notify::RecursiveMode::Recursive) {
        Ok(()) => Ok(()),
        Err(e) => Err(e.to_string()),
    }
}

/// Relies on notify's `Watcher::unwatch`: removes a path's registration.
/// Used best-effort; nothing is promised of the result.
#[verifier::external_body]
fn unwatch_path(w: &mut notify::RecommendedWatcher, path: &str) -> (r: Result<(), String>) {
    match notify::Watcher::unwatch(w, std::path::Path::new(path)) {
        Ok(()) => Ok(()),
        Err(e) => Err(e.to_string()),
    }
}

/// Adds one to an operation counter, saturating at the largest count.
fn bump(x: u64) -> (r: u64)
    ensures
        r >= x,
{
    if x < u64::MAX {
        x + 1
    } else {
        x
    }
}

/// The watch-set reconciler: one long-lived filesystem watcher and the set of
/// directories currently registered with it.
pub struct WatchReconciler {
    watcher: notify::RecommendedWatcher,
    watched: Vec<String>,
    watch_ops: u64,
    unwatch_ops: u64,
}

impl WatchReconciler {
    /// The currently watched paths, in registration order.
    pub closed spec fn watched_texts(&self) -> Seq<Seq<char>> {
        self.watched.deep_view()
    }

    /// The currently watched set.
    pub open spec fn watched_set(&self) -> Set<Seq<char>> {
        self.watched_texts().to_set()
    }

    /// How many watch registrations have been attempted.
    pub closed spec fn watch_ops(&self) -> u64 {
        self.watch_ops
    }

    /// How many unwatch operations have been attempted.
    pub closed spec fn unwatch_ops(&self) -> u64 {
        self.unwatch_ops
    }

    /// No path is recorded twice.
    pub open spec fn wf(&self) -> bool {
        distinct_texts(self.watched_texts())
    }

    /// A reconciler over `watcher`, with nothing watched yet.
    pub fn new(watcher: notify::RecommendedWatcher) -> (s: Self)
        ensures
            s.wf(),
            s.watched_texts() == Seq::<Seq<char>>::empty(),
            s.watch_ops() == 0,
            s.unwatch_ops() == 0,
    {
        let s = WatchReconciler { watcher, watched: Vec::new(), watch_ops: 0, unwatch_ops: 0 };
        proof {
            assert(s.watched_texts() =~= Seq::<Seq<char>>::empty());
        }
        s
    }

    /// The watched paths, for callers that report them.
    pub fn watched_dirs(&self) -> (r: &Vec<String>)
        ensures
            r.deep_view() == self.watched_texts(),
    {
        &self.watched
    }

    /// Whether no path is recorded twice; true for every reconciler this
    /// module hands out, and testable by unverified callers before they ask
    /// for a reconciliation.
    pub fn check_well_formed(&self) -> (r: bool)
        ensures
            r == self.wf(),
    {
        let mut i: usize = 1;
        while i < self.watched.len()
            invariant
                1 <= i,
                forall|a: int, b: int|
                    0 <= a < b < i && b < self.watched_texts().len() ==> self.watched_texts()[a]
                        != self.watched_texts()[b],
            decreases self.watched@.len() - i,
        {
            let mut a: usize = 0;
            while a < i
                invariant
                    0 <= a <= i < self.watched@.len(),
                    forall|t: int|
                        0 <= t < a ==> self.watched_texts()[t] != self.watched_texts()[i as int],
                decreases i - a,
            {
                if self.watched[a] == self.watched[i] {
                    proof {
                        assert(self.watched_texts()[a as int] == self.watched_texts()[i as int]);
                    }
                    return false;
                }
                proof {
                    assert(self.watched_texts()[a as int] == self.watched@[a as int]@);
                    assert(self.watched_texts()[i as int] == self.watched@[i as int]@);
                }
                a += 1;
            }
            i += 1;
        }
        true
    }

    /// How many watch and unwatch operations have been attempted, for
    /// callers that observe the best-effort reconciliation.
    pub fn op_counts(&self) -> (r: (u64, u64))
        ensures
            r.0 == self.watch_ops(),
            r.1 == self.unwatch_ops(),
    {
        (self.watch_ops, self.unwatch_ops)
    }

    /// Converges the watched set to the desired list: normalizes the list,
    /// unwatches what is watched but no longer desired (best-effort, errors
    /// ignored), then watches what is desired but not yet watched.  A failed
    /// watch registration aborts the call with that error; paths registered
    /// earlier in the call stay watched.  A call whose desired set is already
    /// watched performs no watch or unwatch operation.
    pub fn update_watch_dirs(&mut self, desired_dirs: Vec<String>) -> (r: Result<(), String>)
        requires
            old(self).wf(),
        ensures
            final(self).wf(),
            r is Ok ==> final(self).watched_set() == desired_set(desired_dirs.deep_view()),
            r is Err ==> old(self).watched_set().intersect(
                desired_set(desired_dirs.deep_view()),
            ).subset_of(final(self).watched_set()) && final(self).watched_set().subset_of(
                desired_set(desired_dirs.deep_view()),
            ),
            old(self).watched_set() == desired_set(desired_dirs.deep_view()) ==> (r is Ok && final(self).watched_texts() == old(self).watched_texts() && final(self).watch_ops() == old(self).watch_ops() && final(self).unwatch_ops() == old(self).unwatch_ops()),
            final(self).watch_ops() >= old(self).watch_ops(),
            final(self).unwatch_ops() >= old(self).unwatch_ops(),
    {
        broadcast use vstd::set::group_set_axioms;

        let ghost ow = old(self).watched_texts();
        let ghost goal = desired_set(desired_dirs.deep_view());
        let desired = normalize_dirs(desired_dirs);
        let ghost dv = desired.deep_view();
        let ghost cond = ow.to_set() == dv.to_set();
        proof {
            lemma_retained(ow, dv, ow.len() as int);
        }
        // Removal phase: keep what is still desired, unwatch the rest.
        let mut kept: Vec<String> = Vec::new();
        let mut i: usize = 0;
        proof {
            assert(kept.deep_view() =~= retained_upto(ow, dv, 0));
        }
        while i < self.watched.len()
            invariant
                0 <= i <= self.watched@.len(),
                self.watched.deep_view() == ow,
                distinct_texts(ow),
                dv == desired.deep_view(),
                kept.deep_view() == retained_upto(ow, dv, i as int),
                cond ==> self.unwatch_ops == old(self).unwatch_ops(),
                self.unwatch_ops >= old(self).unwatch_ops(),
                self.watch_ops == old(self).watch_ops(),
                cond == (ow.to_set() == dv.to_set()),
            decreases self.watched@.len() - i,
        {
            let entry = self.watched[i].clone();
            let ghost kept_prev = kept.deep_view();
            proof {
                assert(entry@ == ow[i as int]);
            }
            if contains_string(&desired, &entry) {
                kept.push(entry);
                proof {
                    assert(kept.deep_view() =~= kept_prev.push(ow[i as int]));
                }
            } else {
                let _ = unwatch_path(&mut self.watcher, entry.as_str());
                self.unwatch_ops = bump(self.unwatch_ops);
                proof {
                    if cond {
                        assert(ow.to_set().contains(ow[i as int]));
                        assert(dv.to_set().contains(ow[i as int]));
                    }
                }
            }
            i += 1;
        }
        self.watched = kept;
        let ghost rt = retained(ow, dv);
        // Addition phase: watch what is desired but not yet watched.
        let mut rest = desired;
        let ghost mut k: int = 0;
        proof {
            assert(rest.deep_view() =~= dv.skip(0));
            assert(dv.take(0) =~= Seq::<Seq<char>>::empty());
            if cond {
                assert forall|t: int| 0 <= t < ow.len() implies dv.contains(#[trigger] ow[t]) by {
                    assert(ow.to_set().contains(ow[t]));
                }
                assert(rt == ow.subrange(0, ow.len() as int));
                assert(ow.subrange(0, ow.len() as int) =~= ow);
            }
        }
        while rest.len() > 0
            invariant
                0 <= k <= dv.len(),
                k + rest@.len() == dv.len(),
                rest.deep_view() == dv.skip(k),
                distinct_texts(self.watched.deep_view()),
                forall|x: Seq<char>|
                    #[trigger] self.watched.deep_view().contains(x) <==> (rt.contains(x)
                        || dv.take(k).contains(x)),
                forall|x: Seq<char>| #[trigger] rt.contains(x) <==> (ow.contains(x) && dv.contains(
                    x,
                )),
                distinct_texts(dv),
                ow == old(self).watched_texts(),
                dv == normalized(desired_dirs.deep_view()),
                goal == desired_set(desired_dirs.deep_view()),
                rt == retained(ow, dv),
                cond == (ow.to_set() == dv.to_set()),
                cond ==> (self.watched.deep_view() == ow && self.watch_ops == old(self).watch_ops() && self.unwatch_ops == old(self).unwatch_ops()),
                self.watch_ops >= old(self).watch_ops(),
                self.unwatch_ops >= old(self).unwatch_ops(),
            decreases rest@.len(),
        {
            let ghost prev = rest.deep_view();
            let ghost prev_vec = rest@;
            let d = rest.remove(0);
            proof {
                assert(d@ == prev[0]);
                assert(d@ == dv[k]);
                assert forall|t: int| 0 <= t < rest@.len() implies #[trigger] rest.deep_view()[t]
                    == dv.skip(k + 1)[t] by {
                    assert(rest@[t] == prev_vec[t + 1]);
                    assert(prev[t + 1] == prev_vec[t + 1]@);
                    assert(prev[t + 1] == dv.skip(k)[t + 1]);
                }
                assert(rest.deep_view() =~= dv.skip(k + 1));
                assert(dv.take(k + 1) =~= dv.take(k).push(dv[k]));
            }
            let ghost watched_prev = self.watched.deep_view();
            if !contains_string(&self.watched, &d) {
                proof {
                    if cond {
                        assert(dv.to_set().contains(dv[k]));
                        assert(ow.to_set().contains(dv[k]));
                        assert(rt.contains(dv[k]));
                        assert(false);
                    }
                }
                match watch_recursive(&mut self.watcher, d.as_str()) {
                    Result::Ok(_) => {
                        self.watch_ops = bump(self.watch_ops);
                        self.watched.push(d);
                        proof {
                            assert(self.watched.deep_view() =~= watched_prev.push(dv[k]));
                            assert forall|x: Seq<char>|
                                #[trigger] self.watched.deep_view().contains(x) implies (
                            rt.contains(x) || dv.take(k + 1).contains(x)) by {
                                let m = choose|m: int|
                                    0 <= m < self.watched.deep_view().len()
                                        && self.watched.deep_view()[m] == x;
                                if m < watched_prev.len() {
                                    assert(watched_prev.contains(x));
                                } else {
                                    assert(x == dv[k]);
                                    assert(dv.take(k + 1).contains(dv[k])) by {
                                        assert(dv.take(k + 1)[k] == dv[k]);
                                    }
                                }
                            }
                            assert forall|x: Seq<char>|
                                rt.contains(x) || dv.take(k + 1).contains(x) implies #[trigger] self
                                .watched.deep_view().contains(x) by {
                                if rt.contains(x) || dv.take(k).contains(x) {
                                    assert(watched_prev.contains(x));
                                    let m = choose|m: int|
                                        0 <= m < watched_prev.len() && watched_prev[m] == x;
                                    assert(self.watched.deep_view()[m] == x);
                                } else {
                                    assert(x == dv[k]);
                                    assert(self.watched.deep_view().last() == x);
                                }
                            }
                        }
                    },
                    Result::Err(e) => {
                        self.watch_ops = bump(self.watch_ops);
                        proof {
                            assert forall|x: Seq<char>|
                                old(self).watched_set().intersect(goal).contains(x) implies final(self).watched_set().contains(x) by {
                                assert(ow.contains(x) && normalized(
                                    desired_dirs.deep_view(),
                                ).contains(x));
                                assert(rt.contains(x));
                            }
                            assert forall|x: Seq<char>|
                                final(self).watched_set().contains(x) implies goal.contains(x) by {
                                assert(self.watched.deep_view().contains(x));
                                if rt.contains(x) {
                                } else {
                                    assert(dv.take(k).contains(x));
                                    let m = choose|m: int|
                                        0 <= m < dv.take(k).len() && dv.take(k)[m] == x;
                                    assert(dv[m] == x);
                                }
                            }
                        }
                        return Result::Err(e);
                    },
                }
            } else {
                proof {
                    assert(self.watched.deep_view().contains(d@));
                    assert forall|x: Seq<char>|
                        #[trigger] self.watched.deep_view().contains(x) implies (rt.contains(x)
                            || dv.take(k + 1).contains(x)) by {}
                    assert forall|x: Seq<char>|
                        rt.contains(x) || dv.take(k + 1).contains(x) implies #[trigger] self.watched
                        .deep_view().contains(x) by {
                        if !(rt.contains(x) || dv.take(k).contains(x)) {
                            assert(x == dv[k]);
                        }
                    }
                }
            }
            proof {
                k = k + 1;
            }
        }
        proof {
            assert(dv.take(dv.len() as int) =~= dv);
            assert forall|x: Seq<char>| final(self).watched_set().contains(x) implies goal.contains(
                x,
            ) by {
                assert(self.watched.deep_view().contains(x));
                assert(rt.contains(x) || dv.contains(x));
            }
            assert forall|x: Seq<char>| goal.contains(x) implies final(self).watched_set().contains(x) by {
                assert(dv.contains(x));
            }
            assert(final(self).watched_set() =~= goal);
        }
        Result::Ok(())
    }
}

/// The kind of one filesystem event, as the reconciler's notification filter
/// sees it.
#[derive(Clone, Copy, Debug, PartialEq, Eq, Structural)]
pub enum WatchEventKind {
    Create,
    Modify,
    Remove,
    Other,
}

/// The paths a notification batch reports to the host: all of the batch's
/// paths for a creation event, none for any other kind.
pub fn paths_to_emit(kind: WatchEventKind, paths: Vec<String>) -> (r: Vec<String>)
    ensures
        kind == WatchEventKind::Create ==> r@ == paths@,
        kind != WatchEventKind::Create ==> r@.len() == 0,
{
    match kind {
        WatchEventKind::Create => paths,
        _ => Vec::new(),
    }
}

} // verus!
