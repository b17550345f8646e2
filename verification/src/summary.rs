use vstd::prelude::*;

use crate::report::{ComparisonSummary, SuppressionSummary};
use crate::text::{decimal, push_decimal};

verus! {

/// `name=count` as a one-element list when `count` is positive, else nothing.
pub open spec fn count_part(name: Seq<char>, count: u32) -> Seq<Seq<char>> {
    if count > 0 {
        seq![name + "="@ + decimal(count as nat)]
    } else {
        seq![]
    }
}

/// The nonzero per-kind counts of a summary, in report order.
pub open spec fn count_parts(summary: ComparisonSummary) -> Seq<Seq<char>> {
    count_part("moved"@, summary.moved) + count_part("resized"@, summary.resized) + count_part("added"@, summary.added)
        + count_part("removed"@, summary.removed) + count_part("changed"@, summary.changed) + count_part(
        "canvas-size"@,
        summary.canvas_size,
    )
}

/// Text parts separated by `", "`.
pub open spec fn joined(parts: Seq<Seq<char>>) -> Seq<char>
    decreases parts.len(),
{
    if parts.len() == 0 {
        seq![]
    } else if parts.len() == 1 {
        parts[0]
    } else {
        joined(parts.drop_last()) + ", "@ + parts.last()
    }
}

/// The findings line of a plain-text comparison summary.
pub open spec fn summary_line(summary: ComparisonSummary) -> Seq<char> {
    if summary.total == 0 {
        "Findings: none\n"@
    } else {
        "Findings: "@ + decimal(summary.total as nat) + " total ("@ + joined(count_parts(summary)) + ")\n"@
    }
}

fn push_part(
    output: &mut String,
    any: &mut bool,
    name: &str,
    count: u32,
    Ghost(parts): Ghost<Seq<Seq<char>>>,
    Ghost(prefix): Ghost<Seq<char>>,
) -> (result: Ghost<Seq<Seq<char>>>)
    requires
        old(output)@ == prefix + joined(parts),
        *old(any) == (parts.len() > 0),
    ensures
        result@ == parts + count_part(name@, count),
        final(output)@ == prefix + joined(result@),
        *final(any) == (result@.len() > 0),
{
    proof {
        reveal_strlit("=");
        reveal_strlit(", ");
    }
    if count == 0 {
        assert(parts + count_part(name@, count) =~= parts);
        return Ghost(parts);
    }
    if *any {
        output.append(", ");
    }
    *any = true;
    output.append(name);
    output.append("=");
    push_decimal(output, count as u64);
    let ghost next = parts.push(name@ + "="@ + decimal(count as nat));
    proof {
        assert(next.drop_last() =~= parts);
        assert(parts + count_part(name@, count) =~= next);
        assert(output@ =~= prefix + joined(next));
    }
    Ghost(next)
}

/// Appends the findings line of a plain-text comparison summary.
pub fn write_summary(output: &mut String, summary: &ComparisonSummary)
    ensures
        final(output)@ == old(output)@ + summary_line(*summary),
{
    proof {
        reveal_strlit("Findings: none\n");
        reveal_strlit("Findings: ");
        reveal_strlit(" total (");
        reveal_strlit(")\n");
    }
    if summary.total == 0 {
        output.append("Findings: none\n");
        return;
    }
    output.append("Findings: ");
    push_decimal(output, summary.total as u64);
    output.append(" total (");
    let ghost prefix = output@;
    let ghost empty: Seq<Seq<char>> = seq![];
    assert(output@ =~= prefix + joined(empty));
    let mut any = false;
    let Ghost(parts) = push_part(output, &mut any, "moved", summary.moved, Ghost(empty), Ghost(prefix));
    let Ghost(parts) = push_part(output, &mut any, "resized", summary.resized, Ghost(parts), Ghost(prefix));
    let Ghost(parts) = push_part(output, &mut any, "added", summary.added, Ghost(parts), Ghost(prefix));
    let Ghost(parts) = push_part(output, &mut any, "removed", summary.removed, Ghost(parts), Ghost(prefix));
    let Ghost(parts) = push_part(output, &mut any, "changed", summary.changed, Ghost(parts), Ghost(prefix));
    let Ghost(parts) = push_part(output, &mut any, "canvas-size", summary.canvas_size, Ghost(parts), Ghost(prefix));
    output.append(")\n");
    proof {
        reveal_strlit("moved");
        reveal_strlit("resized");
        reveal_strlit("added");
        reveal_strlit("removed");
        reveal_strlit("changed");
        reveal_strlit("canvas-size");
        assert(parts =~= count_parts(*summary));
        assert(output@ =~= old(output)@ + summary_line(*summary));
    }
}

/// The suppression line of a plain-text comparison summary, empty when nothing was suppressed.
pub open spec fn suppression_line(suppression: SuppressionSummary) -> Seq<char> {
    if suppression.movement_border_regions > 0 {
        "Suppressed residuals: "@ + decimal(suppression.movement_border_regions as nat) + " region(s), "@ + decimal(
            suppression.movement_border_pixels as nat,
        ) + " px; see the detailed report.\n"@
    } else {
        seq![]
    }
}

/// Appends the suppression line of a plain-text comparison summary when residuals were
/// suppressed.
pub fn write_suppression(output: &mut String, suppression: &SuppressionSummary)
    ensures
        final(output)@ == old(output)@ + suppression_line(*suppression),
{
    proof {
        reveal_strlit("Suppressed residuals: ");
        reveal_strlit(" region(s), ");
        reveal_strlit(" px; see the detailed report.\n");
    }
    if suppression.movement_border_regions > 0 {
        output.append("Suppressed residuals: ");
        push_decimal(output, suppression.movement_border_regions as u64);
        output.append(" region(s), ");
        push_decimal(output, suppression.movement_border_pixels);
        output.append(" px; see the detailed report.\n");
        assert(output@ =~= old(output)@ + suppression_line(*suppression));
    } else {
        assert(output@ =~= old(output)@ + suppression_line(*suppression));
    }
}

} // verus!
