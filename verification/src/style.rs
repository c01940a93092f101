//! Element styling: the mouse cursor that an element asks for.
use vstd::prelude::*;

verus! {

/// The mouse cursor shown over an element.
#[derive(Clone, Copy, Debug, PartialEq, Eq)]
pub enum CursorStyle {
    Arrow,
    IBeam,
    Crosshair,
    ClosedHand,
    OpenHand,
    PointingHand,
    ResizeLeft,
    ResizeRight,
    ResizeLeftRight,
    ResizeUp,
    ResizeDown,
    ResizeUpDown,
    ResizeUpLeftDownRight,
    ResizeUpRightDownLeft,
    ResizeColumn,
    ResizeRow,
    IBeamCursorForVerticalLayout,
    OperationNotAllowed,
    DragLink,
    DragCopy,
    ContextualMenu,
    /// No cursor is shown.
    Hidden,
}

/// The style properties that an element sets; unset ones are `None`.
#[derive(Clone, Copy, Debug, PartialEq, Eq)]
pub struct StyleRefinement {
    pub mouse_cursor: Option<CursorStyle>,
}

/// An element that can be styled.
pub trait Styled: Sized {
    /// The element's style, as a value.
    spec fn style_spec(&self) -> StyleRefinement;

    /// The element's style, for reading or changing it in place.
    fn style(&mut self) -> (style: &mut StyleRefinement)
        ensures
            *style == old(self).style_spec(),
            final(self).style_spec() == *final(style),
    ;

    /// Sets the mouse cursor shown over the element.
    fn cursor(self, cursor: CursorStyle) -> (styled: Self)
        ensures
            styled.style_spec() == (StyleRefinement { mouse_cursor: Some(cursor), ..self.style_spec() }),
    {
        let mut this = self;
        this.style().mouse_cursor = Some(cursor);
        this
    }

    /// Hides the mouse cursor over the element.
    fn cursor_none(self) -> (styled: Self)
        ensures
            styled.style_spec() == (StyleRefinement { mouse_cursor: Some(CursorStyle::Hidden), ..self.style_spec() }),
    {
        self.cursor(CursorStyle::Hidden)
    }
}

/// A container element.
pub struct Div {
    style: StyleRefinement,
}

/// A container element with nothing styled.
pub fn div() -> (d: Div)
    ensures
        d.style_spec() == (StyleRefinement { mouse_cursor: None }),
{
    Div { style: StyleRefinement { mouse_cursor: None } }
}

impl Styled for Div {
    closed spec fn style_spec(&self) -> StyleRefinement {
        self.style
    }

    fn style(&mut self) -> (style: &mut StyleRefinement) {
        &mut self.style
    }
}

} // verus!
