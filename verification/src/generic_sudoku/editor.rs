use vstd::prelude::*;
use vstd::string::{StrSliceExecFns, StringExecFns};
use crate::generic_sudoku::config::{
    BoardPlacement, PuzzleConfig, corners_of, layout_problem, lemma_preset_fits, placements_fit, preset_layout, presets,
};
use crate::generic_sudoku::generic_board::copy_config;
use crate::text::{decimal, push_decimal};

verus! {

/// Side of the meta-grid that layouts are drawn on.
pub const META_GRID_SIZE: usize = 9;

/// The layout editor: the layout being drawn, the status line, and the
/// texts of the import and export boxes.
pub struct ConfigEditor {
    pub config: PuzzleConfig,
    pub message: String,
    pub import_text: String,
    pub export_text: String,
}

/// The single board at the top-left corner.
pub open spec fn single_board() -> Seq<BoardPlacement> {
    seq![BoardPlacement { meta_row: 0, meta_col: 0 }]
}

/// Some board of `b` has its corner at (mr, mc).
pub open spec fn occupied(b: Seq<BoardPlacement>, mr: usize, mc: usize) -> bool {
    exists|i: int| 0 <= i < b.len() && #[trigger] b[i] == (BoardPlacement { meta_row: mr, meta_col: mc })
}

/// "Board N placed at (R, C)."
pub open spec fn placed_message(n: nat, mr: nat, mc: nat) -> Seq<char> {
    "Board "@ + decimal(n) + " placed at ("@ + decimal(mr) + ", "@ + decimal(mc) + ")."@
}

/// The text `prefix` followed by `s`.
fn joined(prefix: &str, s: &str) -> (t: String)
    ensures
        t@ == prefix@ + s@,
{
    let mut t = String::from_str(prefix);
    t.append(s);
    t
}

impl ConfigEditor {
    /// The editor's invariant: the layout leaves room for the grid
    /// arithmetic.
    pub open spec fn wf(&self) -> bool {
        placements_fit(self.config.boards@)
    }

    /// The editor as it opens: one board named "Custom", empty texts.
    pub fn new() -> (e: Self)
        ensures
            e.wf(),
            e.config.name@ == "Custom"@,
            e.config.boards@ == single_board(),
            e.message@ == Seq::<char>::empty(),
            e.import_text@ == Seq::<char>::empty(),
            e.export_text@ == Seq::<char>::empty(),
    {
        let boards = vec![BoardPlacement { meta_row: 0, meta_col: 0 }];
        assert(boards@ =~= single_board());
        ConfigEditor {
            config: PuzzleConfig { name: String::from_str("Custom"), boards },
            message: String::new(),
            import_text: String::new(),
            export_text: String::new(),
        }
    }

    /// Adds a board with its corner at meta-cell (mr, mc), refused when it
    /// would leave the 9x9 meta-grid, when a board already has that
    /// corner, or when the layout it makes is not valid (the message then
    /// says why).
    pub fn place_board(&mut self, mr: usize, mc: usize)
        requires
            old(self).wf(),
        ensures
            final(self).wf(),
            final(self).config.name@ == old(self).config.name@,
            final(self).import_text == old(self).import_text,
            final(self).export_text == old(self).export_text,
            ({
                let b = old(self).config.boards@;
                let nb = b.push(BoardPlacement { meta_row: mr, meta_col: mc });
                if mr + 3 > 9 || mc + 3 > 9 {
                    final(self).config.boards@ == b && final(self).message@ == "Board would exceed grid bounds."@
                } else if occupied(b, mr, mc) {
                    final(self).config.boards@ == b && final(self).message@
                        == "A board already exists at this position."@
                } else {
                    match layout_problem(nb) {
                        Some(m) => final(self).config.boards@ == b && final(self).message@ == m,
                        None => final(self).config.boards@ == nb && final(self).message@ == placed_message(
                            nb.len(),
                            mr as nat,
                            mc as nat,
                        ),
                    }
                }
            }),
    {
        if mr > META_GRID_SIZE - 3 || mc > META_GRID_SIZE - 3 {
            self.message = String::from_str("Board would exceed grid bounds.");
            return;
        }
        let mut i: usize = 0;
        while i < self.config.boards.len()
            invariant
                i <= self.config.boards@.len(),
                *self == *old(self),
                self.wf(),
                mr <= 6 && mc <= 6,
                forall|j: int| 0 <= j < i ==> #[trigger] self.config.boards@[j] != (BoardPlacement {
                    meta_row: mr,
                    meta_col: mc,
                }),
            decreases self.config.boards@.len() - i,
        {
            let p = self.config.boards[i];
            if p.meta_row == mr && p.meta_col == mc {
                self.message = String::from_str("A board already exists at this position.");
                return;
            }
            i += 1;
        }
        self.config.boards.push(BoardPlacement { meta_row: mr, meta_col: mc });
        match self.config.validate() {
            Err(e) => {
                self.config.boards.pop();
                assert(self.config.boards@ =~= old(self).config.boards@);
                self.message = e;
            },
            Ok(()) => {
                let mut msg = String::from_str("Board ");
                push_decimal(&mut msg, self.config.boards.len() as u64);
                msg.append(" placed at (");
                push_decimal(&mut msg, mr as u64);
                msg.append(", ");
                push_decimal(&mut msg, mc as u64);
                msg.append(").");
                self.message = msg;
            },
        }
    }

    /// Removes board `idx`; the last board is kept (with a message), and an
    /// index past the end changes nothing.
    pub fn remove_board(&mut self, idx: usize)
        requires
            old(self).wf(),
        ensures
            final(self).wf(),
            final(self).config.name@ == old(self).config.name@,
            final(self).import_text == old(self).import_text,
            final(self).export_text == old(self).export_text,
            old(self).config.boards@.len() <= 1 ==> final(self).config.boards@ == old(self).config.boards@
                && final(self).message@ == "Must keep at least one board."@,
            old(self).config.boards@.len() > 1 && idx < old(self).config.boards@.len() ==> {
                &&& final(self).config.boards@ == old(self).config.boards@.remove(idx as int)
                &&& final(self).message@ == "Board "@ + decimal((idx + 1) as nat) + " removed."@
            },
            old(self).config.boards@.len() > 1 && idx >= old(self).config.boards@.len() ==> {
                &&& final(self).config.boards@ == old(self).config.boards@
                &&& final(self).message == old(self).message
            },
    {
        if self.config.boards.len() <= 1 {
            self.message = String::from_str("Must keep at least one board.");
        } else if idx < self.config.boards.len() {
            self.config.boards.remove(idx);
            let mut msg = String::from_str("Board ");
            push_decimal(&mut msg, (idx + 1) as u64);
            msg.append(" removed.");
            self.message = msg;
        }
    }

    /// Back to the single board at the top-left corner.
    pub fn clear_all(&mut self)
        ensures
            final(self).wf(),
            final(self).config.name@ == old(self).config.name@,
            final(self).config.boards@ == single_board(),
            final(self).message@ == "Reset to single board."@,
            final(self).import_text == old(self).import_text,
            final(self).export_text == old(self).export_text,
    {
        self.config.boards = vec![BoardPlacement { meta_row: 0, meta_col: 0 }];
        assert(self.config.boards@ =~= single_board());
        self.message = String::from_str("Reset to single board.");
    }

    /// Renames the layout.
    pub fn set_name(&mut self, name: String)
        ensures
            final(self).config.name == name,
            final(self).config.boards == old(self).config.boards,
            final(self).message == old(self).message,
            final(self).import_text == old(self).import_text,
            final(self).export_text == old(self).export_text,
    {
        self.config.name = name;
    }

    /// Asks to save the layout: refused without a name; otherwise the
    /// message confirms and true tells the app to store it.
    pub fn save(&mut self) -> (store: bool)
        ensures
            store == (old(self).config.name@.len() > 0),
            final(self).config == old(self).config,
            final(self).import_text == old(self).import_text,
            final(self).export_text == old(self).export_text,
            !store ==> final(self).message@ == "Please enter a name."@,
            store ==> final(self).message@ == "Config '"@ + old(self).config.name@ + "' saved."@,
    {
        if self.config.name.as_str().unicode_len() == 0 {
            self.message = String::from_str("Please enter a name.");
            false
        } else {
            let mut msg = joined("Config '", self.config.name.as_str());
            msg.append("' saved.");
            self.message = msg;
            true
        }
    }

    /// Loads built-in layout `idx`; an index past the end changes nothing.
    pub fn load_preset(&mut self, idx: usize)
        requires
            old(self).wf(),
        ensures
            final(self).wf(),
            final(self).import_text == old(self).import_text,
            final(self).export_text == old(self).export_text,
            idx < 6 ==> ({
                let (name, corners) = preset_layout(idx as int);
                &&& final(self).config.name@ == name
                &&& corners_of(final(self).config) == corners
                &&& final(self).message@ == "Loaded preset: "@ + name
            }),
            idx >= 6 ==> final(self).config == old(self).config && final(self).message == old(self).message,
    {
        let all = presets();
        if idx < all.len() {
            self.config = copy_config(&all[idx]);
            proof {
                assert(corners_of(self.config) =~= corners_of(all@[idx as int]));
                lemma_preset_fits(self.config, idx as int);
            }
            self.message = joined("Loaded preset: ", self.config.name.as_str());
        }
    }

    /// Loads saved layout `idx` of `saved` (read by the app); an index past
    /// the end changes nothing.
    pub fn load_saved(&mut self, saved: &Vec<PuzzleConfig>, idx: usize)
        requires
            old(self).wf(),
            idx < saved@.len() ==> placements_fit(saved@[idx as int].boards@),
        ensures
            final(self).wf(),
            final(self).import_text == old(self).import_text,
            final(self).export_text == old(self).export_text,
            idx < saved@.len() ==> ({
                let p = saved@[idx as int];
                &&& final(self).config.name@ == p.name@
                &&& final(self).config.boards@ == p.boards@
                &&& final(self).message@ == "Loaded config: "@ + p.name@
            }),
            idx >= saved@.len() ==> final(self).config == old(self).config && final(self).message == old(self).message,
    {
        if idx < saved.len() {
            self.config = copy_config(&saved[idx]);
            self.message = joined("Loaded config: ", self.config.name.as_str());
        }
    }

    /// Asks to delete saved layout `idx` of `saved` (read by the app): the
    /// name to delete, which the message reports; an index past the end
    /// changes nothing.
    pub fn delete_saved(&mut self, saved: &Vec<PuzzleConfig>, idx: usize) -> (name: Option<String>)
        ensures
            final(self).config == old(self).config,
            final(self).import_text == old(self).import_text,
            final(self).export_text == old(self).export_text,
            idx < saved@.len() ==> (name matches Some(n) && n@ == saved@[idx as int].name@ && final(self).message@
                == "Deleted config: "@ + saved@[idx as int].name@),
            idx >= saved@.len() ==> name is None && final(self).message == old(self).message,
    {
        if idx < saved.len() {
            let name = saved[idx].name.clone();
            self.message = joined("Deleted config: ", name.as_str());
            Some(name)
        } else {
            None
        }
    }

    /// Asks to play the layout: true when it is valid (the app then starts
    /// a game on it); otherwise the message says why.
    pub fn start_game(&mut self) -> (ok: bool)
        requires
            old(self).wf(),
        ensures
            final(self).config == old(self).config,
            final(self).import_text == old(self).import_text,
            final(self).export_text == old(self).export_text,
            match layout_problem(old(self).config.boards@) {
                Some(m) => !ok && final(self).message@ == m,
                None => ok && final(self).message == old(self).message,
            },
    {
        match self.config.validate() {
            Err(e) => {
                self.message = e;
                false
            },
            Ok(()) => true,
        }
    }

    /// Imports a layout read by the app from the import text: None when the
    /// text did not parse, a layout that is not valid is refused with the
    /// reason, a valid one replaces the layout.
    pub fn import(&mut self, parsed: Option<PuzzleConfig>)
        requires
            old(self).wf(),
            parsed matches Some(c) ==> placements_fit(c.boards@),
        ensures
            final(self).wf(),
            final(self).import_text == old(self).import_text,
            final(self).export_text == old(self).export_text,
            match parsed {
                None => final(self).config == old(self).config && final(self).message@ == "Failed to parse JSON."@,
                Some(c) => match layout_problem(c.boards@) {
                    Some(m) => final(self).config == old(self).config && final(self).message@ == "Invalid config: "@
                        + m,
                    None => final(self).config == c && final(self).message@ == "Config imported."@,
                },
            },
    {
        match parsed {
            None => {
                self.message = String::from_str("Failed to parse JSON.");
            },
            Some(c) => match c.validate() {
                Err(e) => {
                    self.message = joined("Invalid config: ", e.as_str());
                },
                Ok(()) => {
                    self.config = c;
                    self.message = String::from_str("Config imported.");
                },
            },
        }
    }

    /// Sets the text of the import box.
    pub fn set_import_text(&mut self, text: String)
        ensures
            final(self).import_text == text,
            final(self).config == old(self).config,
            final(self).message == old(self).message,
            final(self).export_text == old(self).export_text,
    {
        self.import_text = text;
    }

    /// Sets the text of the export box (the layout as JSON, written by the
    /// app).
    pub fn set_export_text(&mut self, text: String)
        ensures
            final(self).export_text == text,
            final(self).config == old(self).config,
            final(self).message == old(self).message,
            final(self).import_text == old(self).import_text,
    {
        self.export_text = text;
    }
}

} // verus!
