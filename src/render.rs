//! The board drawn as text.

use vstd::prelude::*;
use crate::mancala::{Node, Player, Pocket, Score, BLACK_POCKET, WHITE_POCKET};
use crate::rules::{lemma_entry_at_most_total, Position};

verus! {

/// The decimal digit `d`.
pub open spec fn digit_char(d: int) -> char {
    seq!['0', '1', '2', '3', '4', '5', '6', '7', '8', '9'][d]
}

/// The decimal numeral of `n`, with no leading zeros.
pub open spec fn decimal(n: nat) -> Seq<char>
    decreases n,
{
    if n < 10 {
        seq![digit_char(n as int)]
    } else {
        decimal(n / 10) + seq![digit_char((n % 10) as int)]
    }
}

/// One pocket as drawn: its count in parentheses.
pub open spec fn pocket_text(n: int) -> Seq<char> {
    "( "@ + decimal(n as nat) + " )"@
}

/// A row of pockets, two spaces apart.
pub open spec fn row_text(s: Seq<int>) -> Seq<char>
    decreases s.len(),
{
    if s.len() == 0 {
        Seq::empty()
    } else if s.len() == 1 {
        pocket_text(s[0])
    } else {
        row_text(s.drop_last()) + "  "@ + pocket_text(s.last())
    }
}

/// A player's name.
pub open spec fn player_text(p: Player) -> Seq<char> {
    match p {
        Player::White => "White"@,
        Player::Black => "Black"@,
    }
}

/// The board as drawn: Black's store and Black's pockets right to left on top,
/// White's pockets left to right and White's store below, then who is to move.
pub open spec fn board_text(pos: Position) -> Seq<char> {
    "[ "@ + decimal(pos.board[13] as nat) + " ]  "@ + row_text(
        Seq::new(6, |i: int| pos.board[12 - i]),
    ) + "\n\n       "@ + row_text(pos.board.subrange(0, 6)) + "  [ "@ + decimal(
        pos.board[6] as nat,
    ) + " ]\n"@ + player_text(pos.turn) + " to move"@
}

/// The decimal digit `d` as text.
fn digit_text(d: Score) -> (r: &'static str)
    requires
        0 <= d < 10,
    ensures
        r@ == seq![digit_char(d as int)],
{
    proof {
        reveal_strlit("0");
        reveal_strlit("1");
        reveal_strlit("2");
        reveal_strlit("3");
        reveal_strlit("4");
        reveal_strlit("5");
        reveal_strlit("6");
        reveal_strlit("7");
        reveal_strlit("8");
        reveal_strlit("9");
    }
    match d {
        0 => "0",
        1 => "1",
        2 => "2",
        3 => "3",
        4 => "4",
        5 => "5",
        6 => "6",
        7 => "7",
        8 => "8",
        _ => "9",
    }
}

/// Appends the decimal numeral of `n`.
fn push_decimal(out: &mut String, n: Score)
    requires
        0 <= n,
    ensures
        final(out)@ == old(out)@ + decimal(n as nat),
    decreases n,
{
    if n >= 10 {
        push_decimal(out, n / 10);
    }
    out.append(digit_text(n % 10));
    assert(final(out)@ =~= old(out)@ + decimal(n as nat));
}

impl Node {
    /// Appends the counts of `row` as a row of pockets.
    fn push_row(&self, out: &mut String, Ghost(row): Ghost<Seq<int>>, slots: [Pocket; 6])
        requires
            self.wf(),
            forall|i: int| 0 <= i < 6 ==> #[trigger] slots@[i] < 14 && row[i] == self@.board[slots@[i] as int],
            row.len() == 6,
        ensures
            final(out)@ == old(out)@ + row_text(row),
    {
        let ghost start = out@;
        let mut i: usize = 0;
        while i < 6
            invariant
                i <= 6,
                self.wf(),
                row.len() == 6,
                forall|m: int| 0 <= m < 6 ==> #[trigger] slots@[m] < 14 && row[m] == self@.board[slots@[m] as int],
                out@ == start + row_text(row.take(i as int)),
            decreases 6 - i,
        {
            let ghost before = out@;
            if i > 0 {
                out.append("  ");
            }
            out.append("( ");
            proof {
                lemma_entry_at_most_total(self@.board, slots@[i as int] as int);
            }
            push_decimal(out, self.stones(slots[i]));
            out.append(" )");
            assert(row.take(i + 1).drop_last() =~= row.take(i as int));
            if i == 0 {
                assert(out@ =~= start + row_text(row.take(1)));
            } else {
                assert(out@ =~= start + row_text(row.take(i + 1)));
            }
            i += 1;
        }
        assert(row.take(6) =~= row);
    }

    /// The board drawn as text: Black's side on top, White's below, and whose turn it is.
    pub fn to_string(&self) -> (r: String)
        requires
            self.wf(),
        ensures
            r@ == board_text(self@),
    {
        let ghost b = self@.board;
        proof {
            lemma_entry_at_most_total(b, 6);
            lemma_entry_at_most_total(b, 13);
        }
        let mut out = String::new();
        out.append("[ ");
        push_decimal(&mut out, self.stones(BLACK_POCKET));
        out.append(" ]  ");
        // the top row runs over Black's side right to left
        self.push_row(&mut out, Ghost(Seq::new(6, |i: int| b[12 - i])), [12, 11, 10, 9, 8, 7]);
        out.append("\n\n       ");
        assert(b.subrange(0, 6) =~= Seq::new(6, |i: int| b[i]));
        self.push_row(&mut out, Ghost(b.subrange(0, 6)), [0, 1, 2, 3, 4, 5]);
        out.append("  [ ");
        push_decimal(&mut out, self.stones(WHITE_POCKET));
        out.append(" ]\n");
        match self.get_turn() {
            Player::White => out.append("White"),
            Player::Black => out.append("Black"),
        }
        out.append(" to move");
        out
    }
}

} // verus!
