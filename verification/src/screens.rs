//! The screens and the way back and forward through them.
use vstd::prelude::*;

verus! {

/// Which representation a data view renders.
#[derive(Clone, Copy, Debug, PartialEq, Eq, Structural)]
pub enum Representation {
    Heatmap,
    Values,
}

/// How a data view lays out what it shows.
#[derive(Clone, Copy, Debug, PartialEq, Eq, Structural)]
pub enum DataLayout {
    /// Evenly spaced over the whole tensor.
    Overview,
    /// The first and the last.
    Edges,
    /// A window that can be moved.
    Window,
}

impl Default for DataLayout {
    fn default() -> (r: DataLayout)
        ensures
            r == DataLayout::Edges,
    {
        DataLayout::Edges
    }
}

impl DataLayout {
    pub open spec fn successor(self) -> DataLayout {
        match self {
            DataLayout::Overview => DataLayout::Edges,
            DataLayout::Edges => DataLayout::Window,
            DataLayout::Window => DataLayout::Overview,
        }
    }

    /// The next layout in the cycle: overview, edges, window.
    pub fn next(self) -> (r: DataLayout)
        ensures
            r == self.successor(),
    {
        match self {
            DataLayout::Overview => DataLayout::Edges,
            DataLayout::Edges => DataLayout::Window,
            DataLayout::Window => DataLayout::Overview,
        }
    }
}

/// Three steps through the layouts come back to the first.
pub proof fn law_layouts_cycle(l: DataLayout)
    ensures
        l.successor().successor().successor() == l,
        l.successor() != l,
        l.successor().successor() != l,
{
}

/// A screen.
#[derive(Debug)]
pub enum Screen {
    Tree,
    Detail { tensor: String, slice: usize },
    Data { tensor: String, repr: Representation, slice: usize },
}

/// The mathematical content of a [`Screen`].
pub enum ScreenModel {
    Tree,
    Detail { tensor: Seq<char>, slice: usize },
    Data { tensor: Seq<char>, repr: Representation, slice: usize },
}

impl DeepView for Screen {
    type V = ScreenModel;

    open spec fn deep_view(&self) -> ScreenModel {
        match *self {
            Screen::Tree => ScreenModel::Tree,
            Screen::Detail { tensor, slice } => ScreenModel::Detail { tensor: tensor@, slice },
            Screen::Data { tensor, repr, slice } => ScreenModel::Data {
                tensor: tensor@,
                repr,
                slice,
            },
        }
    }
}

impl Clone for Screen {
    fn clone(&self) -> (r: Screen)
        ensures
            r.deep_view() == self.deep_view(),
    {
        match self {
            Screen::Tree => Screen::Tree,
            Screen::Detail { tensor, slice } => Screen::Detail {
                tensor: tensor.clone(),
                slice: *slice,
            },
            Screen::Data { tensor, repr, slice } => Screen::Data {
                tensor: tensor.clone(),
                repr: *repr,
                slice: *slice,
            },
        }
    }
}

impl ScreenModel {
    /// The tensor that a screen belongs to.
    pub open spec fn tensor_name(self) -> Option<Seq<char>> {
        match self {
            ScreenModel::Tree => None,
            ScreenModel::Detail { tensor, .. } => Some(tensor),
            ScreenModel::Data { tensor, .. } => Some(tensor),
        }
    }
}

impl Screen {
    /// The tensor that a screen belongs to.
    pub fn tensor(&self) -> (r: Option<String>)
        ensures
            match r {
                Some(s) => self.deep_view().tensor_name() == Some(s@),
                None => self.deep_view().tensor_name() is None,
            },
    {
        match self {
            Screen::Tree => None,
            Screen::Detail { tensor, .. } => Some(tensor.clone()),
            Screen::Data { tensor, .. } => Some(tensor.clone()),
        }
    }
}

/// What a screen asks for when it is left.
#[derive(Debug)]
pub enum Nav {
    /// Go to a new screen.
    Open(Screen),
    /// Step back through the visited screens.
    Back,
    /// Step forward through the visited screens.
    Forward,
    /// Quit.
    Quit,
}

/// The visited screens with a new one opened from position `p`: what came after it is
/// forgotten.
pub open spec fn with_opened(v: Seq<ScreenModel>, p: int, s: ScreenModel) -> Seq<ScreenModel> {
    v.take(p + 1).push(s)
}

/// The position one step back, at least the root.
pub open spec fn step_back(p: int) -> int {
    if p > 0 {
        p - 1
    } else {
        0
    }
}

/// The position one step forward, at most the last screen.
pub open spec fn step_forward(v: Seq<ScreenModel>, p: int) -> int {
    if p + 1 < v.len() {
        p + 1
    } else {
        p
    }
}

/// Stepping back from a screen that was opened comes back to the screen before it, and
/// stepping forward again to the opened one, which is then the last.
pub proof fn law_back_and_forward(v: Seq<ScreenModel>, p: int, s: ScreenModel)
    requires
        0 <= p < v.len(),
    ensures
        ({
            let w = with_opened(v, p, s);
            let back = step_back(p + 1);
            &&& w[back] == v[p]
            &&& w[step_forward(w, back)] == s
            &&& step_forward(w, p + 1) == p + 1
            &&& forall|i: int| 0 <= i <= p ==> #[trigger] w[i] == v[i]
        }),
{
}

/// The visited screens, and which of them is shown.
#[derive(Debug)]
pub struct History {
    screens: Vec<Screen>,
    cursor: usize,
}

impl History {
    /// The visited screens.
    pub closed spec fn visited(self) -> Seq<ScreenModel> {
        self.screens.deep_view()
    }

    /// Which of them is shown.
    pub closed spec fn position(self) -> int {
        self.cursor as int
    }

    /// The tree is the root, and the position is one of the visited screens.
    pub open spec fn wf(self) -> bool {
        &&& 0 <= self.position() < self.visited().len()
        &&& self.visited()[0] is Tree
    }

    /// A history that begins with the tree, with one more screen open where one is given.
    pub fn new(seed: Option<Screen>) -> (h: History)
        ensures
            h.wf(),
            match seed {
                Some(s) => h.visited() == seq![ScreenModel::Tree, s.deep_view()] && h.position()
                    == 1,
                None => h.visited() == seq![ScreenModel::Tree] && h.position() == 0,
            },
    {
        let mut screens: Vec<Screen> = Vec::new();
        screens.push(Screen::Tree);
        match seed {
            Some(s) => {
                screens.push(s);
                let h = History { screens, cursor: 1 };
                proof {
                    assert(h.visited() =~= seq![ScreenModel::Tree, s.deep_view()]);
                }
                h
            },
            None => {
                let h = History { screens, cursor: 0 };
                proof {
                    assert(h.visited() =~= seq![ScreenModel::Tree]);
                }
                h
            },
        }
    }

    /// The screen that is shown.
    pub fn current(&self) -> (s: &Screen)
        requires
            self.wf(),
        ensures
            s.deep_view() == self.visited()[self.position()],
    {
        &self.screens[self.cursor]
    }

    /// Record how a data view was left, so that coming back returns there.
    pub fn record(&mut self, repr: Representation, slice: usize)
        requires
            old(self).wf(),
        ensures
            final(self).wf(),
            final(self).position() == old(self).position(),
            match old(self).visited()[old(self).position()] {
                ScreenModel::Data { tensor, .. } => final(self).visited() == old(self).visited().update(
                    old(self).position(),
                    ScreenModel::Data { tensor, repr, slice },
                ),
                _ => final(self).visited() == old(self).visited(),
            },
    {
        let tensor = match &self.screens[self.cursor] {
            Screen::Data { tensor, .. } => tensor.clone(),
            _ => {
                return;
            },
        };
        let s = Screen::Data { tensor, repr, slice };
        let ghost before = self.visited();
        let ghost at = self.cursor as int;
        self.screens.set(self.cursor, s);
        proof {
            assert(self.visited() =~= before.update(at, s.deep_view()));
        }
    }

    /// Follow what a screen asked for. Returns whether to go on: `false` to quit.
    pub fn follow(&mut self, nav: Nav) -> (on: bool)
        requires
            old(self).wf(),
        ensures
            final(self).wf(),
            on == !(nav is Quit),
            match nav {
                Nav::Quit => final(self).visited() == old(self).visited() && final(self).position()
                    == old(self).position(),
                Nav::Open(s) => final(self).visited() == with_opened(
                    old(self).visited(),
                    old(self).position(),
                    s.deep_view(),
                ) && final(self).position() == old(self).position() + 1,
                Nav::Back => final(self).visited() == old(self).visited() && final(self).position()
                    == step_back(old(self).position()),
                Nav::Forward => final(self).visited() == old(self).visited()
                    && final(self).position() == step_forward(
                    old(self).visited(),
                    old(self).position(),
                ),
            },
    {
        let n = self.screens.len();
        proof {
            assert(self.cursor < n);
        }
        match nav {
            Nav::Quit => false,
            Nav::Open(screen) => {
                let ghost before = self.visited();
                self.screens.truncate(self.cursor + 1);
                self.screens.push(screen);
                proof {
                    assert(self.visited() =~= before.take(self.cursor + 1).push(
                        screen.deep_view(),
                    ));
                }
                self.cursor = self.cursor + 1;
                true
            },
            Nav::Back => {
                if self.cursor > 0 {
                    self.cursor = self.cursor - 1;
                }
                true
            },
            Nav::Forward => {
                if self.cursor + 1 < n {
                    self.cursor = self.cursor + 1;
                }
                true
            },
        }
    }
}

/// A screen names the tensor that it shows; the tree names none.
pub proof fn law_screens_name_their_tensor(name: Seq<char>, slice: usize, repr: Representation)
    ensures
        ScreenModel::Tree.tensor_name() is None,
        (ScreenModel::Detail { tensor: name, slice }).tensor_name() == Some(name),
        (ScreenModel::Data { tensor: name, repr, slice }).tensor_name() == Some(name),
{
}

} // verus!
