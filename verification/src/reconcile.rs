//! The reconciliation engine: diffing the remote asset list against the
//! local directory listing. Local files whose stem names no remote asset are
//! marked for deletion; every remote asset is then skipped when its expected
//! local filename already exists and fetched otherwise. The caller performs
//! the actual deletions and downloads and reports each fetch outcome back;
//! a failed fetch never stops the run.

use crate::naming::{expected_filename, expected_name, lemma_stem_of_expected, stem_of,
    stem_of_name};
use vstd::prelude::*;
use vstd::string::*;

verus! {

broadcast use {vstd::seq_lib::group_seq_lib_default, vstd::set::group_set_axioms,
    vstd::seq::Seq::lemma_filter_push, vstd::seq::Seq::lemma_push_to_set_commute};

/// A remote media object: an opaque identifier and the original remote path
/// its file extension is taken from.
pub struct Asset {
    pub id: String,
    pub original_path: String,
}

/// A remote album: identifier, display name, and its member assets.
pub struct Album {
    pub id: String,
    pub album_name: String,
    pub assets: Vec<Asset>,
}

/// The views of a sequence of filenames.
pub open spec fn names(files: Seq<String>) -> Seq<Seq<char>> {
    files.map_values(|s: String| s@)
}

/// The identifiers of a sequence of assets, in order.
pub open spec fn remote_ids(assets: Seq<Asset>) -> Seq<Seq<char>> {
    assets.map_values(|a: Asset| a.id@)
}

/// The expected local filename of one asset.
pub open spec fn expected_of(a: Asset) -> Seq<char> {
    expected_name(a.id@, a.original_path@)
}

/// A local filename is orphaned when its stem is no asset's identifier.
pub open spec fn is_orphan(assets: Seq<Asset>, name: Seq<char>) -> bool {
    !remote_ids(assets).contains(stem_of(name))
}

/// The orphaned filenames among `ns`, in order.
pub open spec fn orphan_names(assets: Seq<Asset>, ns: Seq<Seq<char>>) -> Seq<Seq<char>> {
    ns.filter(|n: Seq<char>| is_orphan(assets, n))
}

/// The stems of a set of filenames.
pub open spec fn stems(s: Set<Seq<char>>) -> Set<Seq<char>> {
    s.map(|n: Seq<char>| stem_of(n))
}

/// Whether some asset carries identifier `id`.
fn has_remote_id(assets: &Vec<Asset>, id: &String) -> (b: bool)
    ensures
        b == remote_ids(assets@).contains(id@),
{
    let mut j: usize = 0;
    while j < assets.len()
        invariant
            0 <= j <= assets@.len(),
            forall|k: int| 0 <= k < j ==> remote_ids(assets@)[k] != id@,
        decreases assets@.len() - j,
    {
        if assets[j].id == *id {
            assert(remote_ids(assets@)[j as int] == id@);
            return true;
        }
        j += 1;
    }
    assert(!remote_ids(assets@).contains(id@));
    false
}

/// Whether `name` is among `files`.
fn contains_name(files: &Vec<String>, name: &String) -> (b: bool)
    ensures
        b == names(files@).to_set().contains(name@),
{
    let mut j: usize = 0;
    while j < files.len()
        invariant
            0 <= j <= files@.len(),
            forall|k: int| 0 <= k < j ==> names(files@)[k] != name@,
        decreases files@.len() - j,
    {
        if files[j] == *name {
            assert(names(files@)[j as int] == name@);
            return true;
        }
        j += 1;
    }
    assert(!names(files@).contains(name@));
    false
}

/// The local files to delete: exactly those of `local_files`, in order,
/// whose stem names no remote asset.
pub fn orphan_files(assets: &Vec<Asset>, local_files: &Vec<String>) -> (r: Vec<String>)
    ensures
        names(r@) == orphan_names(assets@, names(local_files@)),
{
    let mut r: Vec<String> = Vec::new();
    proof {
        reveal(Seq::filter);
        assert(names(local_files@).take(0) =~= Seq::<Seq<char>>::empty());
        assert(names(r@) =~= orphan_names(assets@, names(local_files@).take(0)));
    }
    let mut i: usize = 0;
    while i < local_files.len()
        invariant
            0 <= i <= local_files@.len(),
            names(r@) == orphan_names(assets@, names(local_files@).take(i as int)),
        decreases local_files@.len() - i,
    {
        let ghost pre = names(r@);
        let name = &local_files[i];
        let stem = stem_of_name(name.as_str());
        let orphan = !has_remote_id(assets, &stem);
        if orphan {
            r.push(name.clone());
            assert(names(r@) =~= pre.push(name@));
        }
        proof {
            let ns = names(local_files@);
            reveal(Seq::filter);
            assert(ns.take(i + 1).drop_last() =~= ns.take(i as int));
            assert(ns.take(i + 1).last() == ns[i as int]);
        }
        i += 1;
    }
    proof {
        assert(names(local_files@).take(local_files@.len() as int) =~= names(local_files@));
    }
    r
}

/// What the run does next with the current asset.
pub enum StepAction {
    /// The expected file already exists: nothing to do.
    Skip { filename: String },
    /// The expected file is missing: fetch the asset's content to it.
    Fetch { asset_id: String, filename: String },
    /// Every asset has been processed.
    Done,
}

/// One reconciliation pass over a remote asset list, driven step by step.
/// The caller asks for the next action, performs any fetch it names, and
/// reports the outcome back; the machine keeps the counters and the model
/// of the local directory.
pub struct SyncRun {
    assets: Vec<Asset>,
    next_index: usize,
    local: Vec<String>,
    n_new: usize,
    n_skip: usize,
    n_fail: usize,
    init_names: Ghost<Seq<Seq<char>>>,
    downloaded: Ghost<Set<Seq<char>>>,
    failed: Ghost<Set<Seq<char>>>,
}

impl SyncRun {
    /// The assets the run was started with.
    pub closed spec fn assets_seq(self) -> Seq<Asset> {
        self.assets@
    }

    /// The filenames the local directory holds at this point of the run.
    pub closed spec fn local_names(self) -> Seq<Seq<char>> {
        names(self.local@)
    }

    /// The filenames the local directory held when the run started.
    pub closed spec fn initial_names(self) -> Seq<Seq<char>> {
        self.init_names@
    }

    /// The expected filenames of the assets fetched successfully so far.
    pub closed spec fn downloaded_names(self) -> Set<Seq<char>> {
        self.downloaded@
    }

    /// The expected filenames of the assets whose fetch failed so far.
    pub closed spec fn failed_names(self) -> Set<Seq<char>> {
        self.failed@
    }

    /// How many assets have been processed so far.
    pub closed spec fn processed(self) -> int {
        self.next_index as int
    }

    /// The "new" counter: assets downloaded this run.
    pub closed spec fn new_total(self) -> int {
        self.n_new as int
    }

    /// The "skipped" counter: assets whose file already existed.
    pub closed spec fn skip_total(self) -> int {
        self.n_skip as int
    }

    /// The "failed" counter: assets whose download failed.
    pub closed spec fn fail_total(self) -> int {
        self.n_fail as int
    }

    /// Whether every asset has been processed.
    pub open spec fn is_done(self) -> bool {
        self.processed() == self.assets_seq().len()
    }

    /// The machine's invariant; `new` establishes it and every method
    /// preserves it.
    pub closed spec fn inv(self) -> bool {
        &&& 0 <= self.next_index <= self.assets@.len()
        &&& self.n_new + self.n_skip + self.n_fail == self.next_index
        &&& self.local_names().to_set() == self.initial_names().to_set().union(self.downloaded@)
        &&& self.downloaded@.finite()
        &&& self.downloaded@.len() == self.n_new
        &&& (self.n_fail > 0 ==> self.failed@ != Set::<Seq<char>>::empty())
        &&& forall|n: Seq<char>| #[trigger] self.downloaded@.contains(n) ==> !self.initial_names().to_set().contains(n)
            && exists|i: int| 0 <= i < self.next_index && n == expected_of(#[trigger] self.assets@[i])
        &&& forall|n: Seq<char>| #[trigger] self.failed@.contains(n) ==> !self.initial_names().to_set().contains(n)
            && exists|i: int| 0 <= i < self.next_index && n == expected_of(#[trigger] self.assets@[i])
        &&& (self.n_fail == 0 ==> forall|i: int| 0 <= i < self.next_index
            ==> self.local_names().to_set().contains(expected_of(#[trigger] self.assets@[i])))
    }

    /// Starts a run over `assets`, with `local_files` the directory listing
    /// left after the deletion step.
    pub fn new(assets: Vec<Asset>, local_files: Vec<String>) -> (r: SyncRun)
        ensures
            r.inv(),
            r.assets_seq() == assets@,
            r.initial_names() == names(local_files@),
            r.local_names() == names(local_files@),
            r.processed() == 0,
            r.new_total() == 0,
            r.skip_total() == 0,
            r.fail_total() == 0,
            r.downloaded_names() == Set::<Seq<char>>::empty(),
    {
        let ghost init = names(local_files@);
        let r = SyncRun {
            assets,
            next_index: 0,
            local: local_files,
            n_new: 0,
            n_skip: 0,
            n_fail: 0,
            init_names: Ghost(init),
            downloaded: Ghost(Set::empty()),
            failed: Ghost(Set::empty()),
        };
        proof {
            assert(r.local_names().to_set() =~= r.initial_names().to_set().union(
                Set::<Seq<char>>::empty(),
            ));
        }
        r
    }

    /// What the run does next: stop when every asset is processed, skip the
    /// current asset when its expected file exists, fetch it otherwise.
    pub fn next_action(&self) -> (a: StepAction)
        requires
            self.inv(),
        ensures
            self.is_done() ==> a is Done,
            !self.is_done() ==> {
                let asset = self.assets_seq()[self.processed()];
                if self.local_names().to_set().contains(expected_of(asset)) {
                    a matches StepAction::Skip { filename } && filename@ == expected_of(asset)
                } else {
                    a matches StepAction::Fetch { asset_id, filename } && asset_id@ == asset.id@
                        && filename@ == expected_of(asset)
                }
            },
    {
        if self.next_index >= self.assets.len() {
            return StepAction::Done;
        }
        let asset = &self.assets[self.next_index];
        let filename = expected_filename(asset.id.as_str(), asset.original_path.as_str());
        if contains_name(&self.local, &filename) {
            StepAction::Skip { filename }
        } else {
            StepAction::Fetch { asset_id: asset.id.clone(), filename }
        }
    }

    /// Records that the current asset's expected file already exists: the
    /// asset is counted as skipped and the run moves on.
    pub fn apply_skip(&mut self)
        requires
            old(self).inv(),
            !old(self).is_done(),
            old(self).local_names().to_set().contains(
                expected_of(old(self).assets_seq()[old(self).processed()]),
            ),
        ensures
            final(self).inv(),
            final(self).assets_seq() == old(self).assets_seq(),
            final(self).initial_names() == old(self).initial_names(),
            final(self).local_names() == old(self).local_names(),
            final(self).downloaded_names() == old(self).downloaded_names(),
            final(self).failed_names() == old(self).failed_names(),
            final(self).processed() == old(self).processed() + 1,
            final(self).skip_total() == old(self).skip_total() + 1,
            final(self).new_total() == old(self).new_total(),
            final(self).fail_total() == old(self).fail_total(),
    {
        let total = self.assets.len();
        assert(self.n_skip < total && self.next_index < total);
        self.n_skip = self.n_skip + 1;
        self.next_index = self.next_index + 1;
        proof {
            Self::lemma_history_bound_widens(*old(self), *self);
        }
    }

    /// Records the outcome of fetching the current asset. On success the
    /// expected file now exists locally and the asset is counted as new; on
    /// failure the asset is counted as failed. Either way the run moves on
    /// to the next asset.
    pub fn apply_fetch_result(&mut self, ok: bool)
        requires
            old(self).inv(),
            !old(self).is_done(),
            !old(self).local_names().to_set().contains(
                expected_of(old(self).assets_seq()[old(self).processed()]),
            ),
        ensures
            final(self).inv(),
            final(self).assets_seq() == old(self).assets_seq(),
            final(self).initial_names() == old(self).initial_names(),
            final(self).processed() == old(self).processed() + 1,
            final(self).skip_total() == old(self).skip_total(),
            ok ==> ({
                let cur = expected_of(old(self).assets_seq()[old(self).processed()]);
                &&& final(self).new_total() == old(self).new_total() + 1
                &&& final(self).fail_total() == old(self).fail_total()
                &&& final(self).local_names() == old(self).local_names().push(cur)
                &&& final(self).downloaded_names() == old(self).downloaded_names().insert(cur)
            }),
            !ok ==> ({
                &&& final(self).fail_total() == old(self).fail_total() + 1
                &&& final(self).new_total() == old(self).new_total()
                &&& final(self).local_names() == old(self).local_names()
                &&& final(self).downloaded_names() == old(self).downloaded_names()
            }),
    {
        let total = self.assets.len();
        assert(self.n_new < total && self.n_fail < total && self.next_index < total);
        let ghost cur = expected_of(self.assets@[self.next_index as int]);
        if ok {
            let asset = &self.assets[self.next_index];
            let filename = expected_filename(asset.id.as_str(), asset.original_path.as_str());
            self.local.push(filename);
            self.n_new = self.n_new + 1;
            proof {
                self.downloaded@ = self.downloaded@.insert(cur);
                assert(names(self.local@) =~= old(self).local_names().push(cur));
                assert(names(self.local@).to_set() =~= self.init_names@.to_set().union(
                    self.downloaded@,
                ));
            }
        } else {
            self.n_fail = self.n_fail + 1;
            proof {
                self.failed@ = self.failed@.insert(cur);
                assert(self.failed@.contains(cur));
                assert(self.failed@ != Set::<Seq<char>>::empty());
            }
        }
        self.next_index = self.next_index + 1;
        proof {
            Self::lemma_history_bound_widens(*old(self), *self);
            let cur = expected_of(old(self).assets@[old(self).next_index as int]);
            if self.n_fail == 0 {
                assert forall|i: int| 0 <= i < self.next_index implies self.local_names().to_set()
                    .contains(expected_of(#[trigger] self.assets@[i])) by {
                    if i < old(self).next_index {
                        assert(old(self).local_names().to_set().contains(
                            expected_of(old(self).assets@[i]),
                        ));
                        assert(self.local_names().to_set().contains(expected_of(self.assets@[i])));
                    } else {
                        assert(self.local_names().to_set().contains(cur));
                    }
                }
            }
        }
    }

    /// The witnesses behind the history clauses of `inv` stay valid when the
    /// processed prefix only grows and the history sets only grow by names
    /// of assets within the new prefix.
    proof fn lemma_history_bound_widens(pre: SyncRun, post: SyncRun)
        requires
            pre.inv(),
            post.assets == pre.assets,
            post.init_names == pre.init_names,
            post.next_index == pre.next_index + 1,
            pre.next_index < pre.assets@.len(),
            post.downloaded@ == pre.downloaded@ || post.downloaded@ == pre.downloaded@.insert(
                expected_of(pre.assets@[pre.next_index as int]),
            ),
            post.failed@ == pre.failed@ || post.failed@ == pre.failed@.insert(
                expected_of(pre.assets@[pre.next_index as int]),
            ),
            !pre.local_names().to_set().contains(expected_of(pre.assets@[pre.next_index as int]))
                || (post.downloaded@ == pre.downloaded@ && post.failed@ == pre.failed@),
        ensures
            forall|n: Seq<char>| #[trigger] post.downloaded@.contains(n) ==> exists|i: int|
                0 <= i < post.next_index && n == expected_of(#[trigger] post.assets@[i]),
            forall|n: Seq<char>| #[trigger] post.failed@.contains(n) ==> exists|i: int|
                0 <= i < post.next_index && n == expected_of(#[trigger] post.assets@[i]),
            forall|n: Seq<char>| #[trigger] post.downloaded@.contains(n)
                ==> !post.init_names@.to_set().contains(n),
            forall|n: Seq<char>| #[trigger] post.failed@.contains(n)
                ==> !post.init_names@.to_set().contains(n),
    {
        let cur = expected_of(pre.assets@[pre.next_index as int]);
        assert forall|n: Seq<char>| #[trigger] post.downloaded@.contains(n) implies exists|i: int|
            0 <= i < post.next_index && n == expected_of(#[trigger] post.assets@[i]) by {
            if pre.downloaded@.contains(n) {
                let i = choose|i: int|
                    0 <= i < pre.next_index && n == expected_of(#[trigger] pre.assets@[i]);
                assert(0 <= i < post.next_index && n == expected_of(post.assets@[i]));
            } else {
                assert(n == cur);
                assert(n == expected_of(post.assets@[pre.next_index as int]));
            }
        }
        assert forall|n: Seq<char>| #[trigger] post.failed@.contains(n) implies exists|i: int|
            0 <= i < post.next_index && n == expected_of(#[trigger] post.assets@[i]) by {
            if pre.failed@.contains(n) {
                let i = choose|i: int|
                    0 <= i < pre.next_index && n == expected_of(#[trigger] pre.assets@[i]);
                assert(0 <= i < post.next_index && n == expected_of(post.assets@[i]));
            } else {
                assert(n == cur);
                assert(n == expected_of(post.assets@[pre.next_index as int]));
            }
        }
        assert forall|n: Seq<char>| #[trigger] post.downloaded@.contains(n) implies
            !post.init_names@.to_set().contains(n) by {
            if pre.downloaded@.contains(n) {
            } else {
                assert(n == cur);
                assert(pre.local_names().to_set() == pre.init_names@.to_set().union(
                    pre.downloaded@,
                ));
            }
        }
        assert forall|n: Seq<char>| #[trigger] post.failed@.contains(n) implies
            !post.init_names@.to_set().contains(n) by {
            if pre.failed@.contains(n) {
            } else {
                assert(n == cur);
                assert(pre.local_names().to_set() == pre.init_names@.to_set().union(
                    pre.downloaded@,
                ));
            }
        }
    }

    /// The "new" counter.
    pub fn new_count(&self) -> (c: usize)
        ensures
            c as int == self.new_total(),
    {
        self.n_new
    }

    /// The "skipped" counter.
    pub fn skip_count(&self) -> (c: usize)
        ensures
            c as int == self.skip_total(),
    {
        self.n_skip
    }

    /// The "failed" counter.
    pub fn fail_count(&self) -> (c: usize)
        ensures
            c as int == self.fail_total(),
    {
        self.n_fail
    }

    /// The filenames the local directory holds at this point of the run: the
    /// starting listing followed by every file downloaded so far.
    pub fn local_listing(&self) -> (r: &Vec<String>)
        ensures
            names(r@) == self.local_names(),
    {
        &self.local
    }
}

/// A filter over a sequence none of whose elements satisfies the predicate
/// is empty.
proof fn lemma_filter_none<A>(s: Seq<A>, pred: spec_fn(A) -> bool)
    requires
        forall|i: int| 0 <= i < s.len() ==> !pred(#[trigger] s[i]),
    ensures
        s.filter(pred) == Seq::<A>::empty(),
    decreases s.len(),
{
    reveal(Seq::filter);
    if s.len() > 0 {
        lemma_filter_none(s.drop_last(), pred);
        assert(!pred(s.last()));
    }
    assert(s.filter(pred) =~= Seq::<A>::empty());
}

/// Taking stems commutes with set union.
proof fn lemma_stems_union(a: Set<Seq<char>>, b: Set<Seq<char>>)
    ensures
        stems(a.union(b)) == stems(a).union(stems(b)),
{
    let f = |n: Seq<char>| stem_of(n);
    assert forall|y: Seq<char>| stems(a.union(b)).contains(y) implies stems(a).union(
        stems(b),
    ).contains(y) by {
        let n = choose|n: Seq<char>| a.union(b).contains(n) && y == f(n);
        if a.contains(n) {
            assert(stems(a).contains(y));
        } else {
            assert(b.contains(n));
            assert(stems(b).contains(y));
        }
    }
    assert forall|y: Seq<char>| stems(a).union(stems(b)).contains(y) implies stems(
        a.union(b),
    ).contains(y) by {
        if stems(a).contains(y) {
            let n = choose|n: Seq<char>| a.contains(n) && y == f(n);
            assert(a.union(b).contains(n));
            assert(stems(a.union(b)).contains(y));
        } else {
            let n = choose|n: Seq<char>| b.contains(n) && y == f(n);
            assert(a.union(b).contains(n));
            assert(stems(a.union(b)).contains(y));
        }
    }
    assert(stems(a.union(b)) =~= stems(a).union(stems(b)));
}

/// After a finished run every asset was counted exactly once:
/// new + skipped + failed equals the number of remote assets.
pub proof fn lemma_counts_cover_assets(run: SyncRun)
    requires
        run.inv(),
        run.is_done(),
    ensures
        run.new_total() + run.skip_total() + run.fail_total() == run.assets_seq().len(),
{
}

/// A local file whose stem names no remote asset is always marked for
/// deletion, whatever extension the file carries.
pub proof fn lemma_orphan_always_marked(assets: Seq<Asset>, ns: Seq<Seq<char>>, i: int)
    requires
        0 <= i < ns.len(),
        !remote_ids(assets).contains(stem_of(ns[i])),
    ensures
        orphan_names(assets, ns).contains(ns[i]),
{
}

/// A file that some remote asset still names is never marked for deletion.
pub proof fn lemma_matched_never_marked(assets: Seq<Asset>, ns: Seq<Seq<char>>, n: Seq<char>)
    requires
        remote_ids(assets).contains(stem_of(n)),
    ensures
        !orphan_names(assets, ns).contains(n),
{
}

/// After a finished run in which no download failed, every asset's expected
/// file exists locally.
pub proof fn lemma_no_failures_all_present(run: SyncRun)
    requires
        run.inv(),
        run.is_done(),
        run.fail_total() == 0,
    ensures
        forall|i: int| 0 <= i < run.assets_seq().len() ==> run.local_names().to_set().contains(
            expected_of(#[trigger] run.assets_seq()[i]),
        ),
{
}

/// After a finished run whose deletion step removed exactly the orphans of
/// the starting listing `l0`, the local stems are exactly the stems of the
/// files downloaded this run together with the pre-existing stems that name
/// a remote asset — provided no asset identifier holds a '.', so that the
/// stem of a downloaded file is its asset's identifier.
pub proof fn lemma_local_mirrors_remote(run: SyncRun, l0: Seq<Seq<char>>)
    requires
        run.inv(),
        run.is_done(),
        forall|i: int| 0 <= i < run.assets_seq().len() ==> !(#[trigger] run.assets_seq()[i]).id@
            .contains('.'),
        run.initial_names().to_set() == l0.to_set().filter(
            |n: Seq<char>| !is_orphan(run.assets_seq(), n),
        ),
    ensures
        stems(run.local_names().to_set()) == stems(run.downloaded_names()).union(
            stems(l0.to_set()).intersect(remote_ids(run.assets_seq()).to_set()),
        ),
        stems(run.downloaded_names()).subset_of(remote_ids(run.assets_seq()).to_set()),
{
    let assets = run.assets_seq();
    let ids = remote_ids(assets).to_set();
    let f = |n: Seq<char>| stem_of(n);
    let init = run.initial_names().to_set();
    let dl = run.downloaded_names();

    // Stems of successfully downloaded files are asset identifiers.
    assert forall|y: Seq<char>| stems(dl).contains(y) implies ids.contains(y) by {
        let n = choose|n: Seq<char>| dl.contains(n) && y == f(n);
        let i = choose|i: int| 0 <= i < run.processed() && n == expected_of(#[trigger] run.assets_seq()[i]);
        lemma_stem_of_expected(assets[i].id@, assets[i].original_path@);
        assert(remote_ids(assets)[i] == assets[i].id@);
        assert(remote_ids(assets).contains(y));
    }

    // Stems of the kept pre-existing files are the pre-existing stems that
    // name a remote asset.
    assert(stems(init) =~= stems(l0.to_set()).intersect(ids)) by {
        assert forall|y: Seq<char>| stems(init).contains(y) implies stems(l0.to_set()).intersect(
            ids,
        ).contains(y) by {
            let n = choose|n: Seq<char>| init.contains(n) && y == f(n);
            assert(l0.to_set().contains(n) && !is_orphan(assets, n));
            assert(stems(l0.to_set()).contains(y));
            assert(remote_ids(assets).contains(stem_of(n)));
        }
        assert forall|y: Seq<char>| stems(l0.to_set()).intersect(ids).contains(y) implies stems(
            init,
        ).contains(y) by {
            let n = choose|n: Seq<char>| l0.to_set().contains(n) && y == f(n);
            assert(remote_ids(assets).contains(stem_of(n)));
            assert(!is_orphan(assets, n));
            assert(init.contains(n));
            assert(stems(init).contains(y));
        }
    }

    lemma_stems_union(init, dl);
    assert(stems(run.local_names().to_set()) =~= stems(dl).union(
        stems(l0.to_set()).intersect(ids),
    ));
}

/// Running reconciliation again right after a fully successful run, with the
/// remote album unchanged, changes nothing: the second run marks no file for
/// deletion, downloads nothing, fails nothing, and skips every asset. The
/// asset identifiers may not hold a '.', so that a downloaded file's stem is
/// its asset's identifier; `run1`'s own starting listing must hold no
/// orphans either (its deletion step removed them all).
pub proof fn lemma_reconciliation_idempotent(run1: SyncRun, run2: SyncRun)
    requires
        run1.inv(),
        run1.is_done(),
        run1.fail_total() == 0,
        forall|i: int| 0 <= i < run1.assets_seq().len() ==> !(#[trigger] run1.assets_seq()[i]).id@
            .contains('.'),
        forall|j: int| 0 <= j < run1.initial_names().len() ==> remote_ids(
            run1.assets_seq(),
        ).contains(stem_of(#[trigger] run1.initial_names()[j])),
        run2.inv(),
        run2.is_done(),
        run2.assets_seq() == run1.assets_seq(),
        run2.initial_names().to_set() == run1.local_names().to_set(),
    ensures
        orphan_names(run2.assets_seq(), run2.initial_names()) == Seq::<Seq<char>>::empty(),
        run2.new_total() == 0,
        run2.fail_total() == 0,
        run2.skip_total() == run2.assets_seq().len(),
{
    let assets = run1.assets_seq();
    let init2 = run2.initial_names().to_set();

    // No file of the second run's listing is orphaned: it is either a kept
    // file of the first run's listing or a file the first run downloaded.
    assert forall|j: int| 0 <= j < run2.initial_names().len() implies !is_orphan(
        assets,
        #[trigger] run2.initial_names()[j],
    ) by {
        let n = run2.initial_names()[j];
        assert(run2.initial_names().contains(n));
        assert(init2.contains(n));
        assert(run1.local_names().to_set().contains(n));
        if run1.downloaded_names().contains(n) {
            let i = choose|i: int| 0 <= i < run1.processed() && n == expected_of(#[trigger] run1.assets_seq()[i]);
            lemma_stem_of_expected(assets[i].id@, assets[i].original_path@);
            assert(remote_ids(assets)[i] == assets[i].id@);
            assert(remote_ids(assets).contains(stem_of(n)));
        } else {
            assert(run1.initial_names().to_set().contains(n));
            let j1 = choose|j1: int|
                0 <= j1 < run1.initial_names().len() && run1.initial_names()[j1] == n;
            assert(remote_ids(assets).contains(stem_of(run1.initial_names()[j1])));
        }
    }
    lemma_filter_none(run2.initial_names(), |n: Seq<char>| is_orphan(run2.assets_seq(), n));

    // Every asset's expected file already exists when the second run starts,
    // so nothing is downloaded and nothing can fail.
    assert forall|i: int| 0 <= i < run1.assets_seq().len() implies init2.contains(
        expected_of(#[trigger] run1.assets_seq()[i]),
    ) by {
        assert(run1.local_names().to_set().contains(expected_of(run1.assets_seq()[i])));
    }
    assert(run2.downloaded_names() =~= Set::<Seq<char>>::empty()) by {
        assert forall|n: Seq<char>| !(#[trigger] run2.downloaded_names().contains(n)) by {
            if run2.downloaded_names().contains(n) {
                let i = choose|i: int| 0 <= i < run2.processed() && n == expected_of(#[trigger] run2.assets_seq()[i]);
                assert(init2.contains(n));
            }
        }
    }
    assert(run2.failed_names() =~= Set::<Seq<char>>::empty()) by {
        assert forall|n: Seq<char>| !(#[trigger] run2.failed_names().contains(n)) by {
            if run2.failed_names().contains(n) {
                let i = choose|i: int| 0 <= i < run2.processed() && n == expected_of(#[trigger] run2.assets_seq()[i]);
                assert(init2.contains(n));
            }
        }
    }
}

} // verus!
