//! The list of marker packs that the pack repository offers for download,
//! and the state of refreshing it.

use vstd::prelude::*;

verus! {

/// A pack as the repository describes it. The size is kept as the bits of
/// its `f32`.
#[derive(Clone, Debug, PartialEq, Eq)]
pub struct RepoPack {
    pub name: String,
    pub description: String,
    pub download: String,
    pub info: String,
    pub file_name: String,
    pub categories: String,
    pub version: Option<String>,
    /// Bits of an `f32`.
    pub size: u32,
    pub total_downloads: usize,
    pub author_name: String,
    pub author_username: String,
    pub last_update: String,
}

/// A pack's place in the repository's list.
#[derive(Clone, Copy, Debug, PartialEq, Eq, Hash)]
pub struct RepoPackId(pub usize);

/// A request to the repository: refresh the list, or download a pack.
#[derive(Clone, Copy, Debug, PartialEq, Eq)]
pub enum BHAPIEvent {
    Refresh,
    Download(RepoPackId),
}

/// Where a refresh of the list stands.
#[derive(Clone, Copy, Debug, PartialEq, Eq, Default)]
pub enum RefreshState {
    #[default]
    Idle,
    /// A refresh was asked for and its request is to be sent.
    Queued,
    /// The request was sent and its answer has not come.
    WaitingForResponse,
}

impl RefreshState {
    /// The state after a request: a refresh is queued whatever the state
    /// was; a download leaves it as it is.
    pub fn on_event(self, event: BHAPIEvent) -> (r: RefreshState)
        ensures
            r == (match event {
                BHAPIEvent::Refresh => RefreshState::Queued,
                BHAPIEvent::Download(_) => self,
            }),
    {
        match event {
            BHAPIEvent::Refresh => RefreshState::Queued,
            BHAPIEvent::Download(_) => self,
        }
    }
}

/// The packs offered, each under its place in the list.
pub struct DownloadablePacks {
    packs: Vec<RepoPack>,
}

impl View for DownloadablePacks {
    type V = Seq<RepoPack>;

    closed spec fn view(&self) -> Seq<RepoPack> {
        self.packs@
    }
}

impl DownloadablePacks {
    /// Nothing offered yet.
    pub fn new() -> (r: DownloadablePacks)
        ensures
            r@ == Seq::<RepoPack>::empty(),
    {
        DownloadablePacks { packs: Vec::new() }
    }

    /// Replaces the list with the repository's answer: the pack at place
    /// `i` of `packs` is offered under `RepoPackId(i)`.
    pub fn replace_all(&mut self, packs: Vec<RepoPack>)
        ensures
            final(self)@ == packs@,
    {
        self.packs = packs;
    }

    /// The pack offered under `id`, if there is one.
    pub fn get(&self, id: RepoPackId) -> (r: Option<&RepoPack>)
        ensures
            id.0 < self@.len() ==> r == Some(&self@[id.0 as int]),
            id.0 >= self@.len() ==> r is None,
    {
        if id.0 < self.packs.len() {
            Some(&self.packs[id.0])
        } else {
            None
        }
    }

    /// How many packs are offered.
    pub fn len(&self) -> (n: usize)
        ensures
            n == self@.len(),
    {
        self.packs.len()
    }
}

} // verus!
