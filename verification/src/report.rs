use vstd::prelude::*;

use crate::geometry::saturate;
use crate::text::{decimal, push_decimal};

verus! {

/// An image's pixel dimensions.
#[derive(Debug, Clone, Copy, PartialEq, Eq, Structural)]
pub struct ImageDimensions {
    /// Width in pixels.
    pub width: u32,
    /// Height in pixels.
    pub height: u32,
}

/// A half-open pixel rectangle `[x, x + width) x [y, y + height)`.
#[derive(Debug, Clone, Copy, PartialEq, Eq, Structural)]
pub struct Bounds {
    /// Left coordinate.
    pub x: u32,
    /// Top coordinate.
    pub y: u32,
    /// Width in pixels.
    pub width: u32,
    /// Height in pixels.
    pub height: u32,
}

/// Displacement from expected coordinates to actual coordinates.
#[derive(Debug, Clone, Copy, PartialEq, Eq, Structural)]
pub struct Offset {
    /// Horizontal displacement: `actual_x - expected_x`.
    pub x: i32,
    /// Vertical displacement: `actual_y - expected_y`.
    pub y: i32,
}

} // verus!

verus! {

/// A buffer whose dimensions or area cannot be represented, or whose storage could not be
/// reserved.
#[derive(Debug, Clone, Copy, PartialEq, Eq, Structural)]
pub enum SizeError {
    /// An image dimension or area cannot be represented safely.
    ImageTooLarge,
}

} // verus!

verus! {

/// A structural difference category.
#[derive(Debug, Clone, Copy, PartialEq, Eq, PartialOrd, Ord, Hash, Structural)]
pub enum DifferenceKind {
    /// Source canvas dimensions differ.
    CanvasSize,
    /// Corresponding content appears at a translated position.
    Moved,
    /// Corresponding content has different dimensions.
    Resized,
    /// Content exists only in the actual image.
    Added,
    /// Content exists only in the expected image.
    Removed,
    /// Content differs without a more reliable explanation.
    Changed,
}

/// Position of a kind in declaration order, which is also its sort order.
pub open spec fn kind_rank(kind: DifferenceKind) -> nat {
    match kind {
        DifferenceKind::CanvasSize => 0,
        DifferenceKind::Moved => 1,
        DifferenceKind::Resized => 2,
        DifferenceKind::Added => 3,
        DifferenceKind::Removed => 4,
        DifferenceKind::Changed => 5,
    }
}

/// The snake-case name used in reports.
pub open spec fn kind_name(kind: DifferenceKind) -> Seq<char> {
    match kind {
        DifferenceKind::CanvasSize => "canvas_size"@,
        DifferenceKind::Moved => "moved"@,
        DifferenceKind::Resized => "resized"@,
        DifferenceKind::Added => "added"@,
        DifferenceKind::Removed => "removed"@,
        DifferenceKind::Changed => "changed"@,
    }
}

impl DifferenceKind {
    /// The snake-case name used in reports, such as `moved` or `canvas_size`.
    pub fn as_str(&self) -> (result: &'static str)
        ensures
            result@ == kind_name(*self),
    {
        match self {
            DifferenceKind::CanvasSize => "canvas_size",
            DifferenceKind::Moved => "moved",
            DifferenceKind::Resized => "resized",
            DifferenceKind::Added => "added",
            DifferenceKind::Removed => "removed",
            DifferenceKind::Changed => "changed",
        }
    }

    /// Position in declaration order; kinds sort by this rank.
    pub fn rank(&self) -> (result: u8)
        ensures
            result == kind_rank(*self),
    {
        match self {
            DifferenceKind::CanvasSize => 0,
            DifferenceKind::Moved => 1,
            DifferenceKind::Resized => 2,
            DifferenceKind::Added => 3,
            DifferenceKind::Removed => 4,
            DifferenceKind::Changed => 5,
        }
    }
}

/// Counts derived from finalized differences.
#[derive(Debug, Clone, PartialEq, Eq, Structural)]
pub struct ComparisonSummary {
    /// All differences.
    pub total: u32,
    /// Moved regions.
    pub moved: u32,
    /// Resized regions.
    pub resized: u32,
    /// Added regions.
    pub added: u32,
    /// Removed regions.
    pub removed: u32,
    /// Generically changed regions.
    pub changed: u32,
    /// Canvas-size records.
    pub canvas_size: u32,
}

impl Default for ComparisonSummary {
    fn default() -> (result: Self)
        ensures
            result == (ComparisonSummary {
                total: 0,
                moved: 0,
                resized: 0,
                added: 0,
                removed: 0,
                changed: 0,
                canvas_size: 0,
            }),
    {
        ComparisonSummary { total: 0, moved: 0, resized: 0, added: 0, removed: 0, changed: 0, canvas_size: 0 }
    }
}

/// A failure while constructing annotated image buffers.
#[derive(Debug, Clone, Copy, PartialEq, Eq, Structural)]
pub enum RenderError {
    /// The diagnostic canvas dimensions cannot be represented safely.
    ImageTooLarge,
    /// The comparison dimensions do not match the supplied source images.
    ComparisonImageMismatch,
}

impl RenderError {
    /// Human-readable description of the failure.
    pub fn message(&self) -> (result: &'static str)
        ensures
            result@ == match *self {
                RenderError::ImageTooLarge => "rendered image dimensions are too large"@,
                RenderError::ComparisonImageMismatch => "comparison dimensions do not match the supplied images"@,
            },
    {
        match self {
            RenderError::ImageTooLarge => "rendered image dimensions are too large",
            RenderError::ComparisonImageMismatch => "comparison dimensions do not match the supplied images",
        }
    }
}

} // verus!

verus! {

/// Residual differences intentionally deferred so primary structural findings remain prominent.
#[derive(Debug, Clone, PartialEq, Eq)]
pub struct SuppressionSummary {
    /// Small residual regions suppressed because they border exactly one validated movement.
    pub movement_border_regions: u32,
    /// Connected changed pixels contained by those suppressed regions.
    pub movement_border_pixels: u64,
    /// Human- and agent-readable guidance when any residuals were suppressed.
    pub message: Option<String>,
}

/// Guidance reported after `regions` suppressed regions holding `pixels` pixels.
pub open spec fn suppression_message(regions: nat, pixels: nat) -> Seq<char> {
    "Suppressed "@ + decimal(regions) + " small residual "@ + (if regions == 1 { "region"@ } else { "regions"@ })
        + " ("@ + decimal(pixels) + " px) bordering validated movements. Recheck "@ + (if regions == 1 {
        "it"@
    } else {
        "them"@
    }) + " after correcting the reported movements."@
}

impl Default for SuppressionSummary {
    fn default() -> (result: Self)
        ensures
            result.movement_border_regions == 0,
            result.movement_border_pixels == 0,
            result.message is None,
    {
        SuppressionSummary { movement_border_regions: 0, movement_border_pixels: 0, message: None }
    }
}

impl SuppressionSummary {
    /// Records one more suppressed region of `pixels` connected pixels and refreshes the guidance.
    pub fn record_movement_border(&mut self, pixels: u32)
        ensures
            final(self).movement_border_regions == saturate(old(self).movement_border_regions + 1),
            final(self).movement_border_pixels == if old(self).movement_border_pixels + pixels > u64::MAX {
                u64::MAX as int
            } else {
                old(self).movement_border_pixels + pixels
            },
            final(self).message matches Some(text) && text@ == suppression_message(
                final(self).movement_border_regions as nat,
                final(self).movement_border_pixels as nat,
            ),
    {
        self.movement_border_regions = self.movement_border_regions.saturating_add(1);
        self.movement_border_pixels = self.movement_border_pixels.saturating_add(pixels as u64);
        let regions = self.movement_border_regions;
        let mut text = String::from_str("Suppressed ");
        push_decimal(&mut text, regions as u64);
        text.append(" small residual ");
        if regions == 1 {
            text.append("region");
        } else {
            text.append("regions");
        }
        text.append(" (");
        push_decimal(&mut text, self.movement_border_pixels);
        text.append(" px) bordering validated movements. Recheck ");
        if regions == 1 {
            text.append("it");
        } else {
            text.append("them");
        }
        text.append(" after correcting the reported movements.");
        assert(text@ =~= suppression_message(regions as nat, self.movement_border_pixels as nat));
        self.message = Some(text);
    }
}

} // verus!
