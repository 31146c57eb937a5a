//! What the command line asks for.
use vstd::prelude::*;

use crate::inputs::{offsets_read, parse_offset_pair, scp_parts, split_scp};
use crate::open::{OpenRequest, OpenView};
use crate::prompts::optional;
use crate::screens::DataLayout;
use crate::session::{NumBase, Override, StripeMode, TreeState};
use crate::text::{add_line, same, texts};

verus! {

// ---------------------------------------------------------------------------
// Paths on another machine

/// The host of the first path, from the `i`-th on, that names one.
pub open spec fn first_host(paths: Seq<Seq<char>>, i: int) -> Option<Seq<char>>
    decreases paths.len() - i,
{
    if i < 0 || i >= paths.len() {
        None
    } else {
        match scp_parts(paths[i]) {
            Some((host, _)) => Some(host),
            None => first_host(paths, i + 1),
        }
    }
}

/// The host that a path names.
pub open spec fn host_of(path: Seq<char>) -> Seq<char> {
    (scp_parts(path)->0).0
}

/// Whether all paths are on one host.
pub open spec fn all_on(paths: Seq<Seq<char>>, host: Seq<char>) -> bool {
    forall|i: int|
        0 <= i < paths.len() ==> scp_parts(#[trigger] paths[i]) is Some && host_of(paths[i]) == host
}

/// The paths without their host.
pub open spec fn paths_there(paths: Seq<Seq<char>>) -> Seq<Seq<char>> {
    paths.map_values(|p: Seq<char>| (scp_parts(p)->0).1)
}

/// The paths and the host that they are read on, or the complaint that they are not all
/// on one.
pub open spec fn resolved(paths: Seq<Seq<char>>, host: Option<Seq<char>>) -> Result<
    (Seq<Seq<char>>, Option<Seq<char>>),
    Seq<char>,
> {
    if host is Some || first_host(paths, 0) is None {
        Ok((paths, host))
    } else {
        let h = first_host(paths, 0)->0;
        if all_on(paths, h) {
            Ok((paths_there(paths), Some(h)))
        } else {
            Err(
                "can't mix local and scp-style ("@ + h
                    + ":…) paths (or different hosts); list paths from one host, or use --ssh-read"@,
            )
        }
    }
}

/// Where the paths are read: on the host that was given, else on the one that
/// `[user@]host:path` paths name, which must then be the same for all, else here.
pub fn resolve_paths(paths: Vec<String>, host: Option<String>) -> (r: Result<
    (Vec<String>, Option<String>),
    String,
>)
    ensures
        match r {
            Ok((p, h)) => resolved(texts(paths@), optional(host)) == Ok::<
                (Seq<Seq<char>>, Option<Seq<char>>),
                Seq<char>,
            >((texts(p@), optional(h))),
            Err(e) => resolved(texts(paths@), optional(host)) == Err::<
                (Seq<Seq<char>>, Option<Seq<char>>),
                Seq<char>,
            >(e@),
        },
{
    if host.is_some() {
        return Ok((paths, host));
    }
    let ghost all = texts(paths@);
    let mut i: usize = 0;
    let mut found: Option<String> = None;
    while i < paths.len() && found.is_none()
        invariant
            i <= paths.len(),
            all == texts(paths@),
            found is None ==> first_host(all, i as int) == first_host(all, 0),
            found is Some ==> first_host(all, 0) == Some(found->0@),
        decreases paths.len() - i,
    {
        proof {
            assert(all[i as int] == paths@[i as int]@);
        }
        if let Some((h, _)) = split_scp(paths[i].as_str()) {
            found = Some(h);
        }
        i = i + 1;
    }
    let name = match found {
        Some(h) => h,
        None => {
            return Ok((paths, host));
        },
    };
    let ghost want = paths_there(all);
    let mut there: Vec<String> = Vec::new();
    let mut k: usize = 0;
    while k < paths.len()
        invariant
            k <= paths.len(),
            all == texts(paths@),
            want == paths_there(all),
            host is None,
            first_host(all, 0) == Some(name@),
            texts(there@) =~= want.take(k as int),
            forall|j: int|
                0 <= j < k ==> scp_parts(#[trigger] all[j]) is Some && host_of(all[j]) == name@,
        decreases paths.len() - k,
    {
        proof {
            assert(all[k as int] == paths@[k as int]@);
        }
        let mut fits = false;
        if let Some((h, p)) = split_scp(paths[k].as_str()) {
            if same(h.as_str(), name.as_str()) {
                fits = true;
                add_line(&mut there, p);
            }
        }
        if !fits {
            proof {
                assert(!all_on(all, name@));
            }
            return Err(
                "can't mix local and scp-style (".to_owned().concat(name.as_str()).concat(
                    ":…) paths (or different hosts); list paths from one host, or use --ssh-read",
                ),
            );
        }
        k = k + 1;
    }
    proof {
        assert(texts(there@) =~= want);
    }
    Ok((there, Some(name)))
}

// ---------------------------------------------------------------------------
// The request

/// The options that say what is opened.
#[derive(Debug)]
pub struct ExploreArgs {
    pub tensor: Option<String>,
    pub metadata: Option<String>,
    pub values: bool,
    pub heatmap: bool,
    pub tree: bool,
    pub dtype: Option<Override>,
    /// The corner of the window, as it was given.
    pub window: Option<String>,
    /// The split of the edges, as `ROWS,COLUMNS`, or the complaint about it.
    pub edge: Option<Result<String, String>>,
    pub overview: bool,
    pub zebra: Option<StripeMode>,
    pub base: Option<NumBase>,
    pub slice: Option<String>,
    pub shape: Option<String>,
    pub compute_stats: bool,
    pub histogram: bool,
    pub bins: Option<usize>,
    pub tree_state: Option<TreeState>,
    pub search: Option<String>,
    pub legend: bool,
    pub exit: bool,
}

impl ExploreArgs {
    /// Which screen is asked for. Options about the tree ask for it, unless a tensor is
    /// named.
    pub open spec fn wanted_view(self) -> OpenView {
        if self.values {
            OpenView::Values
        } else if self.heatmap {
            OpenView::Heatmap
        } else if self.tree || ((self.tree_state is Some || self.search is Some || self.legend)
            && self.tensor is None) {
            OpenView::Tree
        } else {
            OpenView::Detail
        }
    }

    /// Which layout is asked for.
    pub open spec fn wanted_layout(self) -> Option<DataLayout> {
        if self.window is Some {
            Some(DataLayout::Window)
        } else if self.edge is Some {
            Some(DataLayout::Edges)
        } else if self.overview {
            Some(DataLayout::Overview)
        } else {
            None
        }
    }

    /// Whether anything particular is asked for.
    pub open spec fn wants_open(self) -> bool {
        self.tensor is Some || self.metadata is Some || self.values || self.heatmap || self.tree
            || self.dtype is Some || self.edge is Some || self.overview || self.window is Some
            || self.zebra is Some || self.base is Some || self.slice is Some || self.shape is Some
            || self.compute_stats || self.histogram || self.bins is Some || self.tree_state is Some
            || self.search is Some || self.legend || self.exit
    }

    /// The complaint about the options, if there is one: about the window, then about the
    /// edges.
    pub open spec fn complaint(self) -> Option<Seq<char>> {
        if self.window is Some && offsets_read(self.window->0@) is Err {
            Some(offsets_read(self.window->0@)->Err_0)
        } else {
            match self.edge {
                Some(Err(e)) => Some(e@),
                _ => None,
            }
        }
    }

    /// What is opened at the start, or nothing where nothing particular is asked for.
    pub fn open_request(self) -> (r: Result<Option<OpenRequest>, String>)
        ensures
            match r {
                Err(e) => self.complaint() == Some(e@),
                Ok(None) => self.complaint() is None && !self.wants_open(),
                Ok(Some(q)) => {
                    &&& self.complaint() is None
                    &&& self.wants_open()
                    &&& q.tensor == self.tensor
                    &&& q.metadata == self.metadata
                    &&& q.view == self.wanted_view()
                    &&& q.histogram == self.histogram
                    &&& q.bins == self.bins
                    &&& q.dtype == self.dtype
                    &&& q.layout == self.wanted_layout()
                    &&& q.window_at == match self.window {
                        Some(w) => Some(offsets_read(w@)->Ok_0),
                        None => None,
                    }
                    &&& q.edge_split == match self.edge {
                        Some(Ok(s)) => Some(s),
                        _ => None,
                    }
                    &&& q.zebra == self.zebra
                    &&& q.base == self.base
                    &&& q.slice == self.slice
                    &&& q.shape == self.shape
                    &&& q.compute_stats == self.compute_stats
                    &&& q.tree_state == self.tree_state
                    &&& q.search == self.search
                    &&& q.legend == self.legend
                    &&& q.exit_after == self.exit
                },
            },
    {
        let view = if self.values {
            OpenView::Values
        } else if self.heatmap {
            OpenView::Heatmap
        } else if self.tree || ((self.tree_state.is_some() || self.search.is_some() || self.legend)
            && self.tensor.is_none()) {
            OpenView::Tree
        } else {
            OpenView::Detail
        };
        let layout = if self.window.is_some() {
            Some(DataLayout::Window)
        } else if self.edge.is_some() {
            Some(DataLayout::Edges)
        } else if self.overview {
            Some(DataLayout::Overview)
        } else {
            None
        };
        let wanted = self.tensor.is_some() || self.metadata.is_some() || self.values || self.heatmap
            || self.tree || self.dtype.is_some() || self.edge.is_some() || self.overview
            || self.window.is_some() || self.zebra.is_some() || self.base.is_some()
            || self.slice.is_some() || self.shape.is_some() || self.compute_stats || self.histogram
            || self.bins.is_some() || self.tree_state.is_some() || self.search.is_some()
            || self.legend || self.exit;
        let window_at = match &self.window {
            Some(w) => match parse_offset_pair(w.as_str()) {
                Ok(p) => Some(p),
                Err(e) => {
                    return Err(e);
                },
            },
            None => None,
        };
        let edge_split = match self.edge {
            Some(Ok(s)) => Some(s),
            Some(Err(e)) => {
                return Err(e);
            },
            None => None,
        };
        if !wanted {
            return Ok(None);
        }
        Ok(
            Some(
                OpenRequest {
                    tensor: self.tensor,
                    metadata: self.metadata,
                    view,
                    histogram: self.histogram,
                    bins: self.bins,
                    dtype: self.dtype,
                    layout,
                    window_at,
                    edge_split,
                    zebra: self.zebra,
                    base: self.base,
                    slice: self.slice,
                    shape: self.shape,
                    compute_stats: self.compute_stats,
                    tree_state: self.tree_state,
                    search: self.search,
                    legend: self.legend,
                    exit_after: self.exit,
                },
            ),
        )
    }
}

/// What the program does with a checkpoint.
#[derive(Clone, Copy, Debug, PartialEq, Eq, Structural)]
pub enum Task {
    PrintTree,
    PrintTensors,
    /// Write the command that opens the view.
    EmitCommand,
    /// Write the view as text.
    Plain,
    Browse,
}

/// Decide what the program does with a checkpoint.
pub fn choose_task(print_tree: bool, print_tensors: bool, emit_command: bool, plain: bool) -> (r: Task)
    ensures
        r == if print_tree {
            Task::PrintTree
        } else if print_tensors {
            Task::PrintTensors
        } else if emit_command {
            Task::EmitCommand
        } else if plain {
            Task::Plain
        } else {
            Task::Browse
        },
{
    if print_tree {
        Task::PrintTree
    } else if print_tensors {
        Task::PrintTensors
    } else if emit_command {
        Task::EmitCommand
    } else if plain {
        Task::Plain
    } else {
        Task::Browse
    }
}

/// Paths on one host are read there; local paths are left as they are; the two are not mixed,
/// nor are two hosts. Where a host is given, paths are not looked at.
pub proof fn law_paths_are_of_one_host(paths: Seq<Seq<char>>, host: Seq<char>)
    ensures
        resolved(paths, Some(host)) == Ok::<(Seq<Seq<char>>, Option<Seq<char>>), Seq<char>>(
            (paths, Some(host)),
        ),
        (forall|i: int| 0 <= i < paths.len() ==> scp_parts(#[trigger] paths[i]) is None) ==> resolved(
            paths,
            None,
        ) == Ok::<(Seq<Seq<char>>, Option<Seq<char>>), Seq<char>>((paths, None)),
        paths.len() > 0 && all_on(paths, host) ==> ({
            let r = resolved(paths, None);
            &&& r is Ok
            &&& (r->Ok_0).1 == Some(host)
            &&& (r->Ok_0).0.len() == paths.len()
            &&& forall|i: int|
                0 <= i < paths.len() ==> scp_parts(#[trigger] paths[i]) == Some(
                    (host, (r->Ok_0).0[i]),
                )
        }),
        forall|i: int, j: int|
            #![trigger paths[i], paths[j]]
            0 <= i < paths.len() && 0 <= j < paths.len() && scp_parts(paths[i]) is Some && (scp_parts(
                paths[j],
            ) is None || host_of(paths[j]) != host_of(paths[i])) ==> resolved(paths, None) is Err,
{
    lemma_first_host(paths, 0);
    if paths.len() > 0 && all_on(paths, host) {
        assert(scp_parts(paths[0]) is Some && host_of(paths[0]) == host);
        assert(first_host(paths, 0) == Some(host));
    }
    assert forall|i: int, j: int|
        #![trigger paths[i], paths[j]]
        0 <= i < paths.len() && 0 <= j < paths.len() && scp_parts(paths[i]) is Some && (scp_parts(
            paths[j],
        ) is None || host_of(paths[j]) != host_of(paths[i])) implies resolved(paths, None) is Err by {
        assert(first_host(paths, 0) is Some);
        let h = first_host(paths, 0)->0;
        if all_on(paths, h) {
            assert(host_of(paths[i]) == h);
            assert(host_of(paths[j]) == h);
        }
    }
}

proof fn lemma_first_host(paths: Seq<Seq<char>>, from: int)
    requires
        0 <= from,
    ensures
        first_host(paths, from) is None <==> forall|i: int|
            from <= i < paths.len() ==> scp_parts(#[trigger] paths[i]) is None,
    decreases paths.len() - from,
{
    if from < paths.len() && scp_parts(paths[from]) is None {
        lemma_first_host(paths, from + 1);
    }
}

/// Values come before a heatmap, a heatmap before the tree, the tree before the details; a
/// window before edges, edges before an overview. Without an option nothing is opened, with
/// any of them something is.
pub proof fn law_options_ask_for_a_view(o: ExploreArgs)
    ensures
        o.values ==> o.wanted_view() == OpenView::Values,
        !o.values && o.heatmap ==> o.wanted_view() == OpenView::Heatmap,
        !o.values && !o.heatmap && o.tree ==> o.wanted_view() == OpenView::Tree,
        !o.values && !o.heatmap && o.tensor is None && (o.search is Some || o.legend || o.tree_state
            is Some) ==> o.wanted_view() == OpenView::Tree,
        !o.values && !o.heatmap && !o.tree && o.tensor is Some ==> o.wanted_view()
            == OpenView::Detail,
        o.window is Some ==> o.wanted_layout() == Some(DataLayout::Window),
        o.window is None && o.edge is Some ==> o.wanted_layout() == Some(DataLayout::Edges),
        o.window is None && o.edge is None && o.overview ==> o.wanted_layout() == Some(
            DataLayout::Overview,
        ),
        o.window is None && o.edge is None && !o.overview ==> o.wanted_layout() is None,
        o.wanted_view() != OpenView::Detail || o.wanted_layout() is Some || o.tensor is Some
            || o.metadata is Some || o.histogram || o.compute_stats || o.exit ==> o.wants_open(),
        o.complaint() is Some ==> o.window is Some || o.edge is Some,
{
}

} // verus!
