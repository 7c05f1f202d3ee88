//! The state of the viewer and what each action of its user does to it.

use crate::bits::{bit_is_set, bit_position, toggle, toggled, GRID_CELLS};
use crate::fields::{layout, layout_of, FieldSlice};
use crate::numeral::{
    canonical_text, format_value, lemma_format_then_parse, meaning, parse_value, InputBase,
};
use vstd::prelude::*;

verus! {

/// Everything the viewer remembers between two actions of its user.
///
/// `value` is what is shown. `input` is the text of the value field: the
/// canonical text of `value` in `base`, or what the user has typed since, for
/// as long as that has no value.
pub struct HexViewer {
    pub value: u64,
    pub input: String,
    pub base: InputBase,
    pub selection_start: Option<usize>,
    pub selection_end: Option<usize>,
    pub is_always_on_top: bool,
    pub show_bit_fields: bool,
    pub bit_field_config: String,
}

/// Whether the grid cell `index` lies in the range that the two ends span,
/// whichever of them comes first. With an end missing no cell is selected.
pub open spec fn index_selected(index: usize, start: Option<usize>, end: Option<usize>) -> bool {
    match (start, end) {
        (Some(s), Some(e)) => (s <= index <= e) || (e <= index <= s),
        _ => false,
    }
}

/// Whether the grid cell `index` is selected.
pub fn is_index_selected(index: usize, start: Option<usize>, end: Option<usize>) -> (r: bool)
    ensures
        r == index_selected(index, start, end),
{
    match (start, end) {
        (Some(s), Some(e)) => {
            let (a, b) = if s <= e {
                (s, e)
            } else {
                (e, s)
            };
            index >= a && index <= b
        },
        _ => false,
    }
}

/// A value field that shows the canonical text of the value means that value:
/// reading the field again changes nothing.
pub proof fn lemma_canonical_input_reads_back(viewer: HexViewer)
    requires
        viewer.input_is_canonical(),
    ensures
        meaning(viewer.input@, viewer.base) == Some(viewer.value),
{
    lemma_format_then_parse(viewer.value, viewer.base);
}

impl Default for HexViewer {
    /// The viewer as it opens: value 0 in hexadecimal, the value field empty,
    /// the bit grid in view, nothing selected, and the fields `4:20:8`.
    fn default() -> (r: Self)
        ensures
            r.value == 0,
            r.input@ == Seq::<char>::empty(),
            r.base == InputBase::Hex,
            r.selection_start is None,
            r.selection_end is None,
            !r.is_always_on_top,
            !r.show_bit_fields,
            r.bit_field_config@ == "4:20:8"@,
    {
        HexViewer {
            value: 0,
            input: String::new(),
            base: InputBase::Hex,
            selection_start: None,
            selection_end: None,
            is_always_on_top: false,
            show_bit_fields: false,
            bit_field_config: "4:20:8".to_string(),
        }
    }
}

impl HexViewer {
    /// Whether `self` and `other` differ in nothing but the value and the
    /// text of the value field.
    pub open spec fn same_settings(&self, other: &HexViewer) -> bool {
        &&& self.base == other.base
        &&& self.selection_start == other.selection_start
        &&& self.selection_end == other.selection_end
        &&& self.is_always_on_top == other.is_always_on_top
        &&& self.show_bit_fields == other.show_bit_fields
        &&& self.bit_field_config@ == other.bit_field_config@
    }

    /// Whether the value field shows the canonical text of the value.
    pub open spec fn input_is_canonical(&self) -> bool {
        self.input@ == canonical_text(self.value, self.base)
    }

    /// The canonical text of `value` in the viewer's base.
    pub fn format_input_for_base(&self, value: u64) -> (r: String)
        ensures
            r@ == canonical_text(value, self.base),
    {
        format_value(value, self.base)
    }

    /// The user picked a base. Where it is another than before, the value
    /// field is rewritten in it from the value; what was typed there is not
    /// read again.
    pub fn select_base(&mut self, base: InputBase)
        ensures
            final(self).base == base,
            final(self).value == old(self).value,
            base != old(self).base ==> final(self).input_is_canonical(),
            base == old(self).base ==> final(self).input@ == old(self).input@,
            final(self).selection_start == old(self).selection_start,
            final(self).selection_end == old(self).selection_end,
            final(self).is_always_on_top == old(self).is_always_on_top,
            final(self).show_bit_fields == old(self).show_bit_fields,
            final(self).bit_field_config@ == old(self).bit_field_config@,
    {
        if base != self.base {
            self.base = base;
            self.input = format_value(self.value, base);
        }
    }

    /// The user changed the text of the value field. Text that has a value
    /// becomes the value and is replaced by its canonical form; text that has
    /// none stays as typed and leaves the value alone.
    pub fn input_changed(&mut self)
        ensures
            final(self).same_settings(old(self)),
            match meaning(old(self).input@, old(self).base) {
                Some(v) => final(self).value == v && final(self).input_is_canonical(),
                None => final(self).value == old(self).value && final(self).input@ == old(
                    self,
                ).input@,
            },
    {
        if let Some(v) = parse_value(self.input.as_str(), self.base) {
            self.value = v;
            self.input = format_value(v, self.base);
        }
    }

    /// The user clicked the grid cell of bit `bit_index`: that bit flips, and
    /// the value field is rewritten from the new value.
    pub fn toggle_bit(&mut self, bit_index: u32)
        requires
            bit_index < 64,
        ensures
            final(self).same_settings(old(self)),
            final(self).value == toggled(old(self).value, bit_index),
            final(self).input_is_canonical(),
    {
        self.value = toggle(self.value, bit_index);
        self.input = format_value(self.value, self.base);
    }

    /// The user clicked the pin: the window is to stay on top from now on, or
    /// no longer. Returns the new choice.
    pub fn toggle_always_on_top(&mut self) -> (r: bool)
        ensures
            r == !old(self).is_always_on_top,
            final(self).is_always_on_top == r,
            final(self).value == old(self).value,
            final(self).input@ == old(self).input@,
            final(self).base == old(self).base,
            final(self).selection_start == old(self).selection_start,
            final(self).selection_end == old(self).selection_end,
            final(self).show_bit_fields == old(self).show_bit_fields,
            final(self).bit_field_config@ == old(self).bit_field_config@,
    {
        self.is_always_on_top = !self.is_always_on_top;
        self.is_always_on_top
    }

    /// The user switched between the bit grid and the fields.
    pub fn toggle_view(&mut self)
        ensures
            final(self).show_bit_fields == !old(self).show_bit_fields,
            final(self).value == old(self).value,
            final(self).input@ == old(self).input@,
            final(self).base == old(self).base,
            final(self).selection_start == old(self).selection_start,
            final(self).selection_end == old(self).selection_end,
            final(self).is_always_on_top == old(self).is_always_on_top,
            final(self).bit_field_config@ == old(self).bit_field_config@,
    {
        self.show_bit_fields = !self.show_bit_fields;
    }

    /// The fields into which the configuration cuts the value.
    pub fn fields(&self) -> (r: Vec<FieldSlice>)
        ensures
            r@ == layout_of(self.bit_field_config@, self.value),
    {
        layout(self.bit_field_config.as_str(), self.value)
    }

    /// Whether the bit shown in grid cell `index` is one.
    pub fn cell_is_set(&self, index: usize) -> (r: bool)
        requires
            index < GRID_CELLS,
        ensures
            r == ((self.value >> ((63 - index) as u32)) & 1 == 1),
    {
        bit_is_set(self.value, bit_position(index))
    }

    /// Whether grid cell `index` lies in the selected range.
    pub fn cell_is_selected(&self, index: usize) -> (r: bool)
        ensures
            r == index_selected(index, self.selection_start, self.selection_end),
    {
        is_index_selected(index, self.selection_start, self.selection_end)
    }
}

} // verus!
