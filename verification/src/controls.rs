//! The explorer's keyboard controls as a state machine: each frame's keys move the
//! controls to their next state and yield the actions that the window carries out.
use vstd::prelude::*;
use vstd::utf8::encode_utf8;
use crate::explorer::Explorer;
use crate::numbers::{decimal, parse_usize, parsed_usize, to_decimal};
use crate::text::{
    char_is_alphanumeric, char_is_numeric, chars_of, is_alphanumeric_char, is_numeric_char,
    lowercase_of, split_whitespace, string_of, string_push, to_lowercase, views, words,
};

verus! {

/// The keys of one frame: which were pressed (Ctrl and the letters with it are held or
/// pressed along with it), and the character typed, if any.
#[derive(Clone, Copy)]
pub struct FrameKeys {
    pub escape: bool,
    pub space: bool,
    pub ctrl: bool,
    pub key_l: bool,
    pub key_e: bool,
    pub key_t: bool,
    pub key_s: bool,
    pub key_o: bool,
    pub key_n: bool,
    pub key_r: bool,
    pub key_c: bool,
    pub backspace: bool,
    pub enter: bool,
    pub typed: Option<char>,
}

/// What the window is to do.
pub enum InputAction {
    /// Forget the selection, its expansions, the context path and the focus word.
    ClearSelection,
    /// Recenter the disc on the word.
    Recenter(String),
    /// Ask for a conversation file and load it.
    PickCorpusFile,
    /// Ask for an embeddings file and load it.
    PickEmbeddings,
    /// Compute the bridge words.
    ComputeBridges,
    /// Drop the bridge words.
    ClearBridges,
    /// Compute the semantic cells.
    ComputeCells,
    /// Redraw.
    Redraw,
    /// Put the camera back and drop the focus word.
    ResetCamera,
    /// Drop the context path.
    ClearContext,
    /// The n-gram order was set to this value.
    OrderSet(usize),
    /// Run a query with these words.
    Query(Vec<String>),
}

/// The actions as plain values, for contracts.
pub enum ActionView {
    ClearSelection,
    Recenter(Seq<char>),
    PickCorpusFile,
    PickEmbeddings,
    ComputeBridges,
    ClearBridges,
    ComputeCells,
    Redraw,
    ResetCamera,
    ClearContext,
    OrderSet(usize),
    Query(Seq<Seq<char>>),
}

impl View for InputAction {
    type V = ActionView;

    open spec fn view(&self) -> ActionView {
        match self {
            InputAction::ClearSelection => ActionView::ClearSelection,
            InputAction::Recenter(w) => ActionView::Recenter(w@),
            InputAction::PickCorpusFile => ActionView::PickCorpusFile,
            InputAction::PickEmbeddings => ActionView::PickEmbeddings,
            InputAction::ComputeBridges => ActionView::ComputeBridges,
            InputAction::ClearBridges => ActionView::ClearBridges,
            InputAction::ComputeCells => ActionView::ComputeCells,
            InputAction::Redraw => ActionView::Redraw,
            InputAction::ResetCamera => ActionView::ResetCamera,
            InputAction::ClearContext => ActionView::ClearContext,
            InputAction::OrderSet(n) => ActionView::OrderSet(*n),
            InputAction::Query(ws) => ActionView::Query(views(ws@)),
        }
    }
}

/// The views of a list of actions.
pub open spec fn action_views(v: Seq<InputAction>) -> Seq<ActionView> {
    v.map_values(|a: InputAction| a@)
}

/// The controls' state as plain values.
pub ghost struct ControlsView {
    pub text_input: bool,
    pub query: Seq<char>,
    pub config_mode: bool,
    pub config_input: Seq<char>,
    pub selected: Option<Seq<char>>,
    pub context_path: Seq<Seq<char>>,
    pub use_embeddings: bool,
    pub semantic_mode: bool,
    pub generating: bool,
}

/// The order that the text of the order box sets: a number from 2 through 12.
pub open spec fn order_choice(input: Seq<char>) -> Option<usize> {
    match parsed_usize(input) {
        Some(v) => if 2 <= v <= 12 && input.len() > 0 {
            Some(v)
        } else {
            None
        },
        None => None,
    }
}

/// The n-gram order after closing the order box on `input`.
pub open spec fn order_after(order: usize, input: Seq<char>) -> usize {
    match order_choice(input) {
        Some(v) => v,
        None => order,
    }
}

/// The actions of closing the order box on `input`.
pub open spec fn order_actions(input: Seq<char>) -> Seq<ActionView> {
    match order_choice(input) {
        Some(v) => seq![ActionView::OrderSet(v)],
        None => seq![],
    }
}

/// What the keys of a frame do before the mouse is read, for controls `s`, n-gram order
/// `order`, and whether the semantic cells are computed: the next state, the order, the
/// actions, and whether the frame's input ends there.
pub open spec fn keys_step(s: ControlsView, order: usize, cells_empty: bool, f: FrameKeys) -> (ControlsView, usize, Seq<ActionView>, bool) {
    if f.escape {
        if s.text_input {
            (ControlsView { text_input: false, query: seq![], ..s }, order, seq![], true)
        } else if s.config_mode {
            (ControlsView { config_mode: false, config_input: decimal(order as nat), ..s }, order, seq![], true)
        } else {
            (ControlsView { selected: None, context_path: seq![], ..s }, order, seq![ActionView::ClearSelection], true)
        }
    } else if f.space && s.selected is Some && !s.text_input && !s.config_mode {
        (s, order, seq![ActionView::Recenter(s.selected->0)], true)
    } else if f.ctrl {
        ctrl_step(s, order, cells_empty, f)
    } else {
        (s, order, seq![], false)
    }
}

/// The state after the Ctrl shortcuts T and S: T toggles the embeddings, S the cells.
pub open spec fn prefix_state(s: ControlsView, f: FrameKeys) -> ControlsView {
    ControlsView {
        use_embeddings: if f.key_t { !s.use_embeddings } else { s.use_embeddings },
        semantic_mode: if f.key_s { !s.semantic_mode } else { s.semantic_mode },
        ..s
    }
}

/// The actions of the Ctrl shortcuts L, E, T and S, in turn.
pub open spec fn prefix_actions(s: ControlsView, cells_empty: bool, f: FrameKeys) -> Seq<ActionView> {
    let s1 = prefix_state(s, f);
    let a1: Seq<ActionView> = if f.key_l { seq![ActionView::PickCorpusFile] } else { seq![] };
    let a2: Seq<ActionView> = if f.key_e { seq![ActionView::PickEmbeddings, ActionView::Redraw] } else { seq![] };
    let a3: Seq<ActionView> = if f.key_t {
        seq![if s1.use_embeddings { ActionView::ComputeBridges } else { ActionView::ClearBridges }, ActionView::Redraw]
    } else {
        seq![]
    };
    let a4: Seq<ActionView> = if f.key_s {
        if s1.semantic_mode && cells_empty {
            seq![ActionView::ComputeCells, ActionView::Redraw]
        } else {
            seq![ActionView::Redraw]
        }
    } else {
        seq![]
    };
    a1 + a2 + a3 + a4
}

/// The Ctrl shortcuts: L, E, T, S in turn, then O or N (which end the frame's input), else
/// R and C.
pub open spec fn ctrl_step(s: ControlsView, order: usize, cells_empty: bool, f: FrameKeys) -> (ControlsView, usize, Seq<ActionView>, bool) {
    let s1 = prefix_state(s, f);
    let acts = prefix_actions(s, cells_empty, f);
    if f.key_o {
        let ti = !s1.text_input;
        (ControlsView { text_input: ti, query: if ti { s1.query } else { seq![] }, ..s1 }, order, acts, true)
    } else if f.key_n && !s1.generating {
        if !s1.config_mode {
            (ControlsView { config_mode: true, config_input: decimal(order as nat), ..s1 }, order, acts.push(ActionView::Redraw), true)
        } else {
            let o2 = order_after(order, s1.config_input);
            (
                ControlsView { config_mode: false, config_input: decimal(o2 as nat), ..s1 },
                o2,
                acts + order_actions(s1.config_input) + seq![ActionView::Redraw],
                true,
            )
        }
    } else {
        let a5: Seq<ActionView> = if f.key_r { seq![ActionView::ResetCamera] } else { seq![] };
        let a6: Seq<ActionView> = if f.key_c { seq![ActionView::ClearContext] } else { seq![] };
        (
            ControlsView { context_path: if f.key_c { seq![] } else { s1.context_path }, ..s1 },
            order,
            acts + a5 + a6,
            false,
        )
    }
}

/// A character that the query box takes: alphanumeric, a space, or one of `( ) , . ! ? ; :`.
pub open spec fn query_char(c: char) -> bool {
    is_alphanumeric_char(c) || c == ' ' || c == '(' || c == ')' || c == ',' || c == '.' || c == '!'
        || c == '?' || c == ';' || c == ':'
}

/// The words of a query: its lower-cased text split at white space.
pub open spec fn query_words_of(q: Seq<char>) -> Seq<Seq<char>> {
    words(lowercase_of(q))
}

/// What typing does after the mouse is read: in the order box, a numeric character is
/// added while its text is shorter than two bytes, Backspace drops the last, and Enter closes it and
/// sets the order; in the query box, the characters it takes are added, Backspace drops
/// the last, and Enter on a non-empty query runs it and closes the box.
pub open spec fn typing_step(s: ControlsView, order: usize, f: FrameKeys) -> (ControlsView, usize, Seq<ActionView>) {
    if s.config_mode {
        let c1 = match f.typed {
            Some(c) => if is_numeric_char(c) && encode_utf8(s.config_input).len() < 2 {
                s.config_input.push(c)
            } else {
                s.config_input
            },
            None => s.config_input,
        };
        let c2 = if f.backspace && c1.len() > 0 { c1.drop_last() } else { c1 };
        if f.enter {
            let o2 = order_after(order, c2);
            (ControlsView { config_mode: false, config_input: decimal(o2 as nat), ..s }, o2, order_actions(c2))
        } else {
            (ControlsView { config_input: c2, ..s }, order, seq![])
        }
    } else if s.text_input {
        let q1 = match f.typed {
            Some(c) => if query_char(c) { s.query.push(c) } else { s.query },
            None => s.query,
        };
        let q2 = if f.backspace && q1.len() > 0 { q1.drop_last() } else { q1 };
        if f.enter && q2.len() > 0 {
            let ws = query_words_of(q2);
            if ws.len() > 0 {
                (
                    ControlsView { text_input: false, query: seq![], semantic_mode: true, ..s },
                    order,
                    seq![ActionView::Query(ws)],
                )
            } else {
                (ControlsView { text_input: false, query: seq![], ..s }, order, seq![])
            }
        } else {
            (ControlsView { query: q2, ..s }, order, seq![])
        }
    } else {
        (s, order, seq![])
    }
}

/// The explorer's controls.
pub struct Controls {
    text_input_active: bool,
    query_text: String,
    config_mode: bool,
    config_input: String,
    selected: Option<String>,
    context_path: Vec<String>,
    use_embeddings: bool,
    semantic_mode: bool,
    generating: bool,
}

impl View for Controls {
    type V = ControlsView;

    closed spec fn view(&self) -> ControlsView {
        ControlsView {
            text_input: self.text_input_active,
            query: self.query_text@,
            config_mode: self.config_mode,
            config_input: self.config_input@,
            selected: match &self.selected {
                Some(w) => Some(w@),
                None => None,
            },
            context_path: views(self.context_path@),
            use_embeddings: self.use_embeddings,
            semantic_mode: self.semantic_mode,
            generating: self.generating,
        }
    }
}

impl Controls {
    /// Controls at rest, with the order box showing `order`.
    pub fn new(order: usize) -> (r: Controls)
        ensures
            r@ == (ControlsView {
                text_input: false,
                query: seq![],
                config_mode: false,
                config_input: decimal(order as nat),
                selected: None,
                context_path: seq![],
                use_embeddings: false,
                semantic_mode: false,
                generating: false,
            }),
    {
        let r = Controls {
            text_input_active: false,
            query_text: String::new(),
            config_mode: false,
            config_input: to_decimal(order),
            selected: None,
            context_path: Vec::new(),
            use_embeddings: false,
            semantic_mode: false,
            generating: false,
        };
        assert(views(r.context_path@) =~= Seq::<Seq<char>>::empty());
        r
    }
}


impl Controls {
    /// Closes the order box, setting the order it names if it names one from 2 through 12,
    /// and shows the order again.
    fn close_order_box(&mut self, explorer: &mut Explorer, acts: &mut Vec<InputAction>)
        requires
            old(explorer).wf(),
        ensures
            final(explorer).wf(),
            final(self)@ == (ControlsView {
                config_mode: false,
                config_input: decimal(order_after(old(explorer).order_spec(), old(self)@.config_input) as nat),
                ..old(self)@
            }),
            final(explorer).order_spec() == order_after(old(explorer).order_spec(), old(self)@.config_input),
            action_views(final(acts)@) == action_views(old(acts)@) + order_actions(old(self)@.config_input),
            explorer_kept(*old(explorer), *final(explorer)),
    {
        let ghost input = self.config_input@;
        let ghost before = self@;
        self.config_mode = false;
        let cs = chars_of(self.config_input.as_str());
        if cs.len() > 0 {
            if let Some(v) = parse_usize(self.config_input.as_str()) {
                if 2 <= v && v <= 12 {
                    explorer.set_max_order(v);
                    let ghost a0 = acts@;
                    acts.push(InputAction::OrderSet(v));
                    assert(action_views(acts@) =~= action_views(a0).push(ActionView::OrderSet(v)));
                }
            }
        }
        proof {
            assert(order_actions(input) == if order_choice(input) is Some {
                seq![ActionView::OrderSet(order_choice(input)->0)]
            } else {
                Seq::<ActionView>::empty()
            });
        }
        assert(action_views(acts@) =~= action_views(old(acts)@) + order_actions(input));
        self.config_input = to_decimal(explorer.max_ngram_order());
        assert(self@ =~= (ControlsView {
            config_mode: false,
            config_input: decimal(order_after(old(explorer).order_spec(), input) as nat),
            ..before
        }));
    }

    /// Handles the keys of a frame before the mouse is read (see `keys_step`); the second
    /// result tells whether the frame's input ends there.
    pub fn handle_keys(&mut self, explorer: &mut Explorer, cells_empty: bool, f: FrameKeys) -> (r: (Vec<InputAction>, bool))
        requires
            old(explorer).wf(),
        ensures
            final(explorer).wf(),
            explorer_kept(*old(explorer), *final(explorer)),
            (final(self)@, final(explorer).order_spec(), action_views(r.0@), r.1) == keys_step(
                old(self)@,
                old(explorer).order_spec(),
                cells_empty,
                f,
            ),
    {
        let mut acts: Vec<InputAction> = Vec::new();
        let ghost s = self@;
        let ghost order = explorer.order_spec();
        if f.escape {
            if self.text_input_active {
                self.text_input_active = false;
                self.query_text = String::new();
                return (acts, true);
            } else if self.config_mode {
                self.config_mode = false;
                self.config_input = to_decimal(explorer.max_ngram_order());
                return (acts, true);
            } else {
                self.selected = None;
                self.context_path = Vec::new();
                acts.push(InputAction::ClearSelection);
                proof {
                    assert(views(self.context_path@) =~= Seq::<Seq<char>>::empty());
                    assert(action_views(acts@) =~= seq![ActionView::ClearSelection]);
                }
                return (acts, true);
            }
        }
        if f.space && !self.text_input_active && !self.config_mode {
            if let Some(w) = &self.selected {
                acts.push(InputAction::Recenter(w.clone()));
                assert(action_views(acts@) =~= seq![ActionView::Recenter(s.selected->0)]);
                return (acts, true);
            }
        }
        if !f.ctrl {
            assert(action_views(acts@) =~= Seq::<ActionView>::empty());
            return (acts, false);
        }
        self.ctrl_keys(explorer, cells_empty, f)
    }

    /// The shortcuts L, E, T and S of a frame with Ctrl held: their actions, in turn.
    fn ctrl_prefix(&mut self, cells_empty: bool, f: FrameKeys) -> (r: Vec<InputAction>)
        ensures
            action_views(r@) == prefix_actions(old(self)@, cells_empty, f),
            final(self)@ == prefix_state(old(self)@, f),
    {
        let mut acts: Vec<InputAction> = Vec::new();
        if f.key_l {
            acts.push(InputAction::PickCorpusFile);
        }
        let ghost b1 = action_views(acts@);
        if f.key_e {
            acts.push(InputAction::PickEmbeddings);
            acts.push(InputAction::Redraw);
        }
        let ghost b2 = action_views(acts@);
        if f.key_t {
            self.use_embeddings = !self.use_embeddings;
            if self.use_embeddings {
                acts.push(InputAction::ComputeBridges);
            } else {
                acts.push(InputAction::ClearBridges);
            }
            acts.push(InputAction::Redraw);
        }
        let ghost b3 = action_views(acts@);
        if f.key_s {
            self.semantic_mode = !self.semantic_mode;
            if self.semantic_mode && cells_empty {
                acts.push(InputAction::ComputeCells);
            }
            acts.push(InputAction::Redraw);
        }
        proof {
            let a1: Seq<ActionView> = if f.key_l { seq![ActionView::PickCorpusFile] } else { seq![] };
            assert(b1 =~= a1);
            let a2: Seq<ActionView> = if f.key_e { seq![ActionView::PickEmbeddings, ActionView::Redraw] } else { seq![] };
            assert(b2 =~= a1 + a2);
            let s0 = old(self)@;
            let s1 = prefix_state(s0, f);
            let a3: Seq<ActionView> = if f.key_t {
                seq![if s1.use_embeddings { ActionView::ComputeBridges } else { ActionView::ClearBridges }, ActionView::Redraw]
            } else {
                seq![]
            };
            assert(b3 =~= a1 + a2 + a3);
            assert(self@ == s1);
        }
        acts
    }

    /// The keys of a frame with Ctrl held (see `ctrl_step`).
    #[verifier::rlimit(50)]
    fn ctrl_keys(&mut self, explorer: &mut Explorer, cells_empty: bool, f: FrameKeys) -> (r: (Vec<InputAction>, bool))
        requires
            old(explorer).wf(),
        ensures
            final(explorer).wf(),
            explorer_kept(*old(explorer), *final(explorer)),
            (final(self)@, final(explorer).order_spec(), action_views(r.0@), r.1) == ctrl_step(
                old(self)@,
                old(explorer).order_spec(),
                cells_empty,
                f,
            ),
    {
        let mut acts = self.ctrl_prefix(cells_empty, f);
        let ghost s1 = self@;
        let ghost acts1 = action_views(acts@);
        if f.key_o {
            self.text_input_active = !self.text_input_active;
            if !self.text_input_active {
                self.query_text = String::new();
            }
            return (acts, true);
        }
        if f.key_n && !self.generating {
            if !self.config_mode {
                self.config_mode = true;
                self.config_input = to_decimal(explorer.max_ngram_order());
                acts.push(InputAction::Redraw);
                assert(action_views(acts@) =~= acts1.push(ActionView::Redraw));
                return (acts, true);
            } else {
                self.close_order_box(explorer, &mut acts);
                let ghost a2 = action_views(acts@);
                acts.push(InputAction::Redraw);
                assert(action_views(acts@) =~= a2.push(ActionView::Redraw));
                assert(action_views(acts@) =~= acts1 + order_actions(s1.config_input) + seq![ActionView::Redraw]);
                return (acts, true);
            }
        }
        if f.key_r {
            acts.push(InputAction::ResetCamera);
        }
        let ghost a5v = action_views(acts@);
        if f.key_c {
            self.context_path = Vec::new();
            acts.push(InputAction::ClearContext);
            assert(views(self.context_path@) =~= Seq::<Seq<char>>::empty());
        }
        proof {
            let a5: Seq<ActionView> = if f.key_r { seq![ActionView::ResetCamera] } else { seq![] };
            let a6: Seq<ActionView> = if f.key_c { seq![ActionView::ClearContext] } else { seq![] };
            assert(a5v =~= acts1 + a5);
            assert(action_views(acts@) =~= acts1 + a5 + a6);
        }
        (acts, false)
    }

    /// Handles what was typed in a frame after the mouse is read (see `typing_step`).
    pub fn handle_typing(&mut self, explorer: &mut Explorer, f: FrameKeys) -> (r: Vec<InputAction>)
        requires
            old(explorer).wf(),
        ensures
            final(explorer).wf(),
            explorer_kept(*old(explorer), *final(explorer)),
            (final(self)@, final(explorer).order_spec(), action_views(r@)) == typing_step(
                old(self)@,
                old(explorer).order_spec(),
                f,
            ),
    {
        let mut acts: Vec<InputAction> = Vec::new();
        let ghost s = self@;
        if self.config_mode {
            if let Some(c) = f.typed {
                if char_is_numeric(c) && crate::html::utf8_len_below(&chars_of(self.config_input.as_str()), 2) {
                    string_push(&mut self.config_input, c);
                }
            }
            if f.backspace {
                self.config_input = drop_last_char(&self.config_input);
            }
            if f.enter {
                self.close_order_box(explorer, &mut acts);
            }
            return acts;
        }
        if self.text_input_active {
            if let Some(c) = f.typed {
                if char_is_alphanumeric(c) || c == ' ' || c == '(' || c == ')' || c == ',' || c == '.' || c == '!'
                    || c == '?' || c == ';' || c == ':' {
                    string_push(&mut self.query_text, c);
                }
            }
            if f.backspace {
                self.query_text = drop_last_char(&self.query_text);
            }
            if f.enter && chars_of(self.query_text.as_str()).len() > 0 {
                let lower = to_lowercase(self.query_text.as_str());
                let ws = split_whitespace(&chars_of(lower.as_str()));
                if ws.len() > 0 {
                    self.semantic_mode = true;
                    acts.push(InputAction::Query(ws));
                }
                self.text_input_active = false;
                self.query_text = String::new();
            }
            return acts;
        }
        acts
    }

    /// Selects `word`, clicked in the window: selecting the selected word again, or a word
    /// among its expansions (`is_expanded`), extends the context path by it. Returns
    /// whether the word joins the context shown on the disc (a word selected again).
    pub fn select_word(&mut self, word: String, is_expanded: bool) -> (r: bool)
        ensures
            r == (old(self)@.selected == Some(word@)),
            final(self)@ == (ControlsView {
                selected: Some(word@),
                context_path: if old(self)@.selected == Some(word@) || is_expanded {
                    old(self)@.context_path.push(word@)
                } else {
                    old(self)@.context_path
                },
                ..old(self)@
            }),
    {
        let again = match &self.selected {
            Some(s) => crate::html::same_text(s.as_str(), word.as_str()),
            None => false,
        };
        if again || is_expanded {
            let ghost before = views(self.context_path@);
            self.context_path.push(word.clone());
            assert(views(self.context_path@) =~= before.push(word@));
        }
        self.selected = Some(word);
        again
    }

    /// The selected word, if any.
    pub fn selected(&self) -> (r: Option<&String>)
        ensures
            match r {
                Some(w) => self@.selected == Some(w@),
                None => self@.selected is None,
            },
    {
        match &self.selected {
            Some(w) => Some(w),
            None => None,
        }
    }

    /// The words selected along the way, in order.
    pub fn context_path(&self) -> (r: &Vec<String>)
        ensures
            views(r@) == self@.context_path,
    {
        &self.context_path
    }

    /// Whether the query box is open, and its text.
    pub fn query_box(&self) -> (r: (bool, &String))
        ensures
            r.0 == self@.text_input,
            r.1@ == self@.query,
    {
        (self.text_input_active, &self.query_text)
    }

    /// Whether the order box is open, and its text.
    pub fn order_box(&self) -> (r: (bool, &String))
        ensures
            r.0 == self@.config_mode,
            r.1@ == self@.config_input,
    {
        (self.config_mode, &self.config_input)
    }

    /// Whether embeddings are in use and whether the semantic cells are shown.
    pub fn modes(&self) -> (r: (bool, bool))
        ensures
            r.0 == self@.use_embeddings,
            r.1 == self@.semantic_mode,
    {
        (self.use_embeddings, self.semantic_mode)
    }

    /// Sets whether embeddings are in use (after loading them, or failing to).
    pub fn set_use_embeddings(&mut self, on: bool)
        ensures
            final(self)@ == (ControlsView { use_embeddings: on, ..old(self)@ }),
    {
        self.use_embeddings = on;
    }

    /// Sets whether a generation is playing; the order box does not open while one is.
    pub fn set_generating(&mut self, on: bool)
        ensures
            final(self)@ == (ControlsView { generating: on, ..old(self)@ }),
    {
        self.generating = on;
    }
}

/// Everything of the explorer but its n-gram order stays as it was.
pub open spec fn explorer_kept(a: Explorer, b: Explorer) -> bool {
    &&& b.trie_spec().view() == a.trie_spec().view()
    &&& b.trie_spec().recorded() == a.trie_spec().recorded()
    &&& b.loaded_spec() == a.loaded_spec()
    &&& b.vocab_spec() == a.vocab_spec()
}

/// `s` without its last character, if it has one.
fn drop_last_char(s: &String) -> (r: String)
    ensures
        r@ == if s@.len() > 0 { s@.drop_last() } else { s@ },
{
    let cs = chars_of(s.as_str());
    if cs.len() == 0 {
        return string_of(&cs);
    }
    let mut out: Vec<char> = Vec::new();
    let mut i: usize = 0;
    let n = cs.len() - 1;
    while i < n
        invariant
            i <= n,
            n == cs@.len() - 1,
            out@ == cs@.take(i as int),
        decreases cs@.len() - i,
    {
        out.push(cs[i]);
        i = i + 1;
        assert(out@ =~= cs@.take(i as int));
    }
    assert(out@ =~= s@.drop_last());
    string_of(&out)
}
} // verus!
