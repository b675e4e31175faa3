//! The viewer's state apart from the camera: the two input texts, what
//! they parse to, the revisions that tell the views to start afresh, the
//! status line and the picked points.
use vstd::prelude::*;
use crate::parser::{
    parse_2d, parse_3d, parse_errors, parsed_rings, ring_texts, ParseResult2D, ParseResult3D,
};
use crate::selection::{PickedPoint2D, PickedPoint3D};
use crate::import::{format_import_status, import_status, ImportedFile};
use crate::text::chars_of;

verus! {

/// Which input an imported text goes to.
#[derive(Debug, Clone, Copy, PartialEq, Eq, Structural)]
pub enum CoordDimension {
    Dim2D,
    Dim3D,
}

pub struct ViewerState {
    pub input_2d: String,
    pub input_3d: String,
    pub parsed_2d: ParseResult2D,
    pub parsed_3d: ParseResult3D,
    pub show_errors: bool,
    pub input_revision: u64,
    pub view_revision: u64,
    pub status_message: Option<String>,
    pub status_is_error: bool,
    pub selected_2d: Option<PickedPoint2D>,
    pub selected_3d: Option<PickedPoint3D>,
    pub last_scrolled_2d: Option<PickedPoint2D>,
    pub last_scrolled_3d: Option<PickedPoint3D>,
}

/// A revision counter after one step: it wraps around at the top.
pub open spec fn next_revision(r: u64) -> u64 {
    if r == u64::MAX {
        0
    } else {
        (r + 1) as u64
    }
}

pub open spec fn status_seq(m: Option<String>) -> Option<Seq<char>> {
    match m {
        Some(s) => Some(s@),
        None => None,
    }
}

impl ViewerState {
    /// The parsed results match the inputs, and the warnings are shown
    /// exactly when there are any.
    pub open spec fn parsed_from_inputs(&self) -> bool {
        &&& self.parsed_2d@.0 == parsed_rings(ring_texts(self.input_2d@), 2)
        &&& self.parsed_2d@.1 == parse_errors(ring_texts(self.input_2d@), 2)
        &&& self.parsed_3d@.0 == parsed_rings(ring_texts(self.input_3d@), 3)
        &&& self.parsed_3d@.1 == parse_errors(ring_texts(self.input_3d@), 3)
        &&& self.show_errors == (self.parsed_2d@.1.len() > 0 || self.parsed_3d@.1.len() > 0)
    }

    /// The picked points and the scroll marks are all cleared.
    pub open spec fn selection_cleared(&self) -> bool {
        &&& self.selected_2d is None
        &&& self.selected_3d is None
        &&& self.last_scrolled_2d is None
        &&& self.last_scrolled_3d is None
    }

    /// The state at start: empty inputs, nothing parsed, nothing picked.
    pub fn new() -> (st: Self)
        ensures
            st.input_2d@.len() == 0,
            st.input_3d@.len() == 0,
            st.parsed_2d@.0.len() == 0,
            st.parsed_2d@.1.len() == 0,
            st.parsed_3d@.0.len() == 0,
            st.parsed_3d@.1.len() == 0,
            !st.show_errors,
            st.input_revision == 0,
            st.view_revision == 0,
            st.status_message is None,
            !st.status_is_error,
            st.selection_cleared(),
    {
        ViewerState {
            input_2d: String::new(),
            input_3d: String::new(),
            parsed_2d: ParseResult2D::default(),
            parsed_3d: ParseResult3D::default(),
            show_errors: false,
            input_revision: 0,
            view_revision: 0,
            status_message: None,
            status_is_error: false,
            selected_2d: None,
            selected_3d: None,
            last_scrolled_2d: None,
            last_scrolled_3d: None,
        }
    }

    /// Parses both inputs again; the warnings are shown when either has any.
    pub fn refresh(&mut self)
        ensures
            final(self).parsed_from_inputs(),
            final(self).input_2d == old(self).input_2d,
            final(self).input_3d == old(self).input_3d,
            final(self).input_revision == old(self).input_revision,
            final(self).view_revision == old(self).view_revision,
            final(self).status_message == old(self).status_message,
            final(self).status_is_error == old(self).status_is_error,
            final(self).selected_2d == old(self).selected_2d,
            final(self).selected_3d == old(self).selected_3d,
            final(self).last_scrolled_2d == old(self).last_scrolled_2d,
            final(self).last_scrolled_3d == old(self).last_scrolled_3d,
    {
        self.parsed_2d = parse_2d(self.input_2d.as_str());
        self.parsed_3d = parse_3d(self.input_3d.as_str());
        self.show_errors = self.parsed_2d.errors.len() > 0 || self.parsed_3d.errors.len() > 0;
    }

    /// Shows `message` in the status line, as an error or not.
    pub fn set_status(&mut self, message: String, is_error: bool)
        ensures
            status_seq(final(self).status_message) == Some(message@),
            final(self).status_is_error == is_error,
            final(self).input_2d == old(self).input_2d,
            final(self).input_3d == old(self).input_3d,
            final(self).parsed_2d == old(self).parsed_2d,
            final(self).parsed_3d == old(self).parsed_3d,
            final(self).show_errors == old(self).show_errors,
            final(self).input_revision == old(self).input_revision,
            final(self).view_revision == old(self).view_revision,
            final(self).selected_2d == old(self).selected_2d,
            final(self).selected_3d == old(self).selected_3d,
            final(self).last_scrolled_2d == old(self).last_scrolled_2d,
            final(self).last_scrolled_3d == old(self).last_scrolled_3d,
    {
        self.status_message = Some(message);
        self.status_is_error = is_error;
    }

    /// Puts an imported text into the input `dim`, starts both views afresh,
    /// clears the picked points and parses again.
    pub fn apply_imported_text(&mut self, dim: CoordDimension, text: String)
        ensures
            dim == CoordDimension::Dim2D ==> final(self).input_2d@ == text@ && final(self).input_3d
                == old(self).input_3d,
            dim == CoordDimension::Dim3D ==> final(self).input_3d@ == text@ && final(self).input_2d
                == old(self).input_2d,
            final(self).input_revision == next_revision(old(self).input_revision),
            final(self).view_revision == next_revision(old(self).view_revision),
            final(self).selection_cleared(),
            final(self).parsed_from_inputs(),
            final(self).status_message == old(self).status_message,
            final(self).status_is_error == old(self).status_is_error,
    {
        match dim {
            CoordDimension::Dim2D => self.input_2d = text,
            CoordDimension::Dim3D => self.input_3d = text,
        }
        self.input_revision = self.input_revision.wrapping_add(1);
        self.view_revision = self.view_revision.wrapping_add(1);
        self.selected_2d = None;
        self.selected_3d = None;
        self.last_scrolled_2d = None;
        self.last_scrolled_3d = None;
        self.refresh();
    }

    /// The Draw step: parses both inputs again and says so in the status line.
    pub fn draw(&mut self)
        ensures
            final(self).parsed_from_inputs(),
            status_seq(final(self).status_message) == Some("Plot updated."@),
            !final(self).status_is_error,
            final(self).input_2d == old(self).input_2d,
            final(self).input_3d == old(self).input_3d,
            final(self).input_revision == old(self).input_revision,
            final(self).view_revision == old(self).view_revision,
            final(self).selected_2d == old(self).selected_2d,
            final(self).selected_3d == old(self).selected_3d,
            final(self).last_scrolled_2d == old(self).last_scrolled_2d,
            final(self).last_scrolled_3d == old(self).last_scrolled_3d,
    {
        self.refresh();
        let message = crate::text::string_of(&chars_of("Plot updated."));
        self.set_status(message, false);
    }

    /// Finishes an import into the input `dim`: the merged text of `files`
    /// goes into that input with the import status line, or the merge's
    /// error goes into the status line and nothing else changes.
    pub fn finish_import(&mut self, dim: CoordDimension, merged: Result<String, String>, files: &Vec<ImportedFile>)
        ensures
            match merged {
                Ok(text) => {
                    &&& dim == CoordDimension::Dim2D ==> final(self).input_2d@ == text@ && final(self).input_3d
                        == old(self).input_3d
                    &&& dim == CoordDimension::Dim3D ==> final(self).input_3d@ == text@ && final(self).input_2d
                        == old(self).input_2d
                    &&& final(self).input_revision == next_revision(old(self).input_revision)
                    &&& final(self).view_revision == next_revision(old(self).view_revision)
                    &&& final(self).selection_cleared()
                    &&& final(self).parsed_from_inputs()
                    &&& status_seq(final(self).status_message) == Some(import_status(files@, files.len() > 1))
                    &&& !final(self).status_is_error
                },
                Err(e) => {
                    &&& status_seq(final(self).status_message) == Some(e@)
                    &&& final(self).status_is_error
                    &&& final(self).input_2d == old(self).input_2d
                    &&& final(self).input_3d == old(self).input_3d
                    &&& final(self).parsed_2d == old(self).parsed_2d
                    &&& final(self).parsed_3d == old(self).parsed_3d
                    &&& final(self).show_errors == old(self).show_errors
                    &&& final(self).input_revision == old(self).input_revision
                    &&& final(self).view_revision == old(self).view_revision
                    &&& final(self).selected_2d == old(self).selected_2d
                    &&& final(self).selected_3d == old(self).selected_3d
                },
            },
    {
        match merged {
            Ok(text) => {
                self.apply_imported_text(dim, text);
                let status = format_import_status(files, files.len() > 1);
                self.set_status(status, false);
            },
            Err(e) => {
                self.set_status(e, true);
            },
        }
    }

    /// Empties both inputs, starts both views afresh, clears the picked
    /// points, parses again and says so in the status line.
    pub fn clear_inputs(&mut self)
        ensures
            final(self).input_2d@.len() == 0,
            final(self).input_3d@.len() == 0,
            final(self).parsed_2d@.0.len() == 0,
            final(self).parsed_2d@.1.len() == 0,
            final(self).parsed_3d@.0.len() == 0,
            final(self).parsed_3d@.1.len() == 0,
            !final(self).show_errors,
            final(self).input_revision == next_revision(old(self).input_revision),
            final(self).view_revision == next_revision(old(self).view_revision),
            final(self).selection_cleared(),
            status_seq(final(self).status_message) == Some("Cleared 2D and 3D inputs."@),
            !final(self).status_is_error,
    {
        self.input_2d = String::new();
        self.input_3d = String::new();
        self.input_revision = self.input_revision.wrapping_add(1);
        self.view_revision = self.view_revision.wrapping_add(1);
        self.selected_2d = None;
        self.selected_3d = None;
        self.last_scrolled_2d = None;
        self.last_scrolled_3d = None;
        self.refresh();
        proof {
            lemma_empty_text_parses_to_nothing(2);
            lemma_empty_text_parses_to_nothing(3);
        }
        let message = crate::text::string_of(&chars_of("Cleared 2D and 3D inputs."));
        self.set_status(message, false);
    }
}

/// An empty text has no ring and gives no message.
pub proof fn lemma_empty_text_parses_to_nothing(dims: nat)
    ensures
        parsed_rings(ring_texts(Seq::<char>::empty()), dims).len() == 0,
        parse_errors(ring_texts(Seq::<char>::empty()), dims).len() == 0,
{
    let e = Seq::<char>::empty();
    let xs = crate::text::split(e, seq!['\n']);
    assert(xs == seq![e]);
    assert(crate::parser::without_comment(e) == e);
    assert(crate::text::split(e, crate::parser::ring_separator()) == seq![e]);
    assert(crate::parser::line_parts(e) =~= seq![e]);
    assert(xs.drop_last() =~= Seq::<Seq<char>>::empty());
    assert(xs.last() == e);
    assert(crate::parser::cut_pieces(xs.drop_last()) == seq![e]);
    let ps = crate::parser::cut_pieces(xs);
    assert(ps =~= seq![e]);
    assert(ps.drop_last() =~= Seq::<Seq<char>>::empty());
    assert(crate::text::trim(e) =~= e);
    assert(crate::parser::trimmed_nonempty(ps.drop_last()) =~= Seq::<Seq<char>>::empty());
    assert(ps.last() == e);
    assert(crate::parser::trimmed_nonempty(ps) =~= Seq::<Seq<char>>::empty());
    assert(ring_texts(e) =~= Seq::<Seq<char>>::empty());
}

} // verus!
