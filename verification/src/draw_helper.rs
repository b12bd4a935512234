//! Pure helpers behind the rendering layer: the scoreboard panel's text and
//! moving a point by an offset.

use vstd::prelude::*;
use vstd::string::StringExecFns;
use crate::entities::Vec2;
use crate::entities::POS_LIMIT;
use crate::text::dec_digits;
use crate::text::u64_to_string;

verus! {

/// The scoreboard panel's text from line `i` on: each stored line, numbered
/// from one, as `<rank>) <line>` and closed with a line break.
pub open spec fn scoreboard_text(lines: Seq<Seq<char>>, i: int) -> Seq<char>
    decreases lines.len() - i,
{
    if i < 0 || i >= lines.len() {
        Seq::empty()
    } else {
        dec_digits(i + 1) + seq![')', ' '] + lines[i] + seq!['\n'] + scoreboard_text(lines, i + 1)
    }
}

/// Number the stored scoreboard lines for display, one per line.
pub fn format_scoreboard(scoreboard: &Vec<String>) -> (r: String)
    ensures
        r@ == scoreboard_text(scoreboard.deep_view(), 0),
{
    let ghost dv = scoreboard.deep_view();
    let mut result = String::new();
    let mut i: usize = 0;
    while i < scoreboard.len()
        invariant
            0 <= i <= scoreboard@.len(),
            dv == scoreboard.deep_view(),
            scoreboard_text(dv, 0) =~= result@ + scoreboard_text(dv, i as int),
        decreases scoreboard@.len() - i,
    {
        let ghost prev = result@;
        let num = u64_to_string((i as u64) + 1);
        result.append(num.as_str());
        result.append(") ");
        result.append(scoreboard[i].as_str());
        result.append("\n");
        proof {
            reveal_strlit(") ");
            reveal_strlit("\n");
            assert(") "@ =~= seq![')', ' ']);
            assert("\n"@ =~= seq!['\n']);
            assert(scoreboard@[i as int]@ == dv[i as int]);
            assert(result@ =~= prev + dec_digits(i as int + 1) + seq![')', ' '] + dv[i as int]
                + seq!['\n']);
            assert(scoreboard_text(dv, 0) =~= result@ + scoreboard_text(dv, i as int + 1));
        }
        i = i + 1;
    }
    result
}

/// Move a drawable position by a translation offset, component-wise.
pub fn translate(pos: &mut Vec2, trans: &Vec2)
    requires
        -POS_LIMIT <= old(pos).x <= POS_LIMIT,
        -POS_LIMIT <= old(pos).y <= POS_LIMIT,
        -POS_LIMIT <= trans.x <= POS_LIMIT,
        -POS_LIMIT <= trans.y <= POS_LIMIT,
    ensures
        final(pos).x == old(pos).x + trans.x,
        final(pos).y == old(pos).y + trans.y,
{
    pos.x = pos.x + trans.x;
    pos.y = pos.y + trans.y;
}

} // verus!
