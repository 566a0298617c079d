//! Games of cubes drawn from a bag.

use crate::text::{
    decimal, lemma_run, lemma_sum_prefix, lemma_sum_step, lines, read_number, rows_of, run,
    split_lines, sum_of,
};
use vstd::prelude::*;
use vstd::slice::*;
use vstd::string::*;

verus! {

/// The cubes of one draw, by colour.
#[derive(Clone, Copy, Debug, PartialEq, Eq, Structural)]
pub struct Pull {
    pub red: u8,
    pub green: u8,
    pub blue: u8,
}

/// The larger of two counts.
pub open spec fn larger(a: u8, b: u8) -> u8 {
    if a >= b {
        a
    } else {
        b
    }
}

impl Default for Pull {
    /// A draw of no cubes.
    fn default() -> (r: Self)
        ensures
            r == (Pull { red: 0, green: 0, blue: 0 }),
    {
        Pull { red: 0, green: 0, blue: 0 }
    }
}

impl Pull {
    /// A draw of `count` red cubes.
    pub fn new_red(count: u8) -> (r: Self)
        ensures
            r == (Pull { red: count, green: 0, blue: 0 }),
    {
        Pull { red: count, green: 0, blue: 0 }
    }

    /// A draw of `count` green cubes.
    pub fn new_green(count: u8) -> (r: Self)
        ensures
            r == (Pull { red: 0, green: count, blue: 0 }),
    {
        Pull { red: 0, green: count, blue: 0 }
    }

    /// A draw of `count` blue cubes.
    pub fn new_blue(count: u8) -> (r: Self)
        ensures
            r == (Pull { red: 0, green: 0, blue: count }),
    {
        Pull { red: 0, green: 0, blue: count }
    }

    /// Colour by colour the larger count of the two draws.
    pub fn max(self, other: Self) -> (r: Self)
        ensures
            r == self.spec_max(other),
    {
        Pull {
            red: if self.red >= other.red {
                self.red
            } else {
                other.red
            },
            green: if self.green >= other.green {
                self.green
            } else {
                other.green
            },
            blue: if self.blue >= other.blue {
                self.blue
            } else {
                other.blue
            },
        }
    }

    /// Colour by colour the larger count of the two draws.
    pub open spec fn spec_max(self, other: Self) -> Self {
        Pull {
            red: larger(self.red, other.red),
            green: larger(self.green, other.green),
            blue: larger(self.blue, other.blue),
        }
    }

    /// The product of the three counts.
    pub fn power(self) -> (r: usize)
        ensures
            r == self.red * self.green * self.blue,
    {
        proof {
            assert(self.red * self.green <= 255 * 255) by (nonlinear_arith)
                requires
                    self.red <= 255,
                    self.green <= 255,
            ;
            assert(self.red * self.green * self.blue <= 255 * 255 * 255) by (nonlinear_arith)
                requires
                    0 <= self.red * self.green <= 255 * 255,
                    self.blue <= 255,
            ;
        }
        self.red as usize * self.green as usize * self.blue as usize
    }

    /// Colour by colour the sum of the two draws.
    pub fn add(self, rhs: Self) -> (r: Self)
        requires
            self.red + rhs.red <= u8::MAX,
            self.green + rhs.green <= u8::MAX,
            self.blue + rhs.blue <= u8::MAX,
        ensures
            r.red == self.red + rhs.red,
            r.green == self.green + rhs.green,
            r.blue == self.blue + rhs.blue,
    {
        Pull { red: self.red + rhs.red, green: self.green + rhs.green, blue: self.blue + rhs.blue }
    }
}

/// The most red cubes that the bag holds.
pub const MAX_RED: u8 = 12;

/// The most green cubes that the bag holds.
pub const MAX_GREEN: u8 = 13;

/// The most blue cubes that the bag holds.
pub const MAX_BLUE: u8 = 14;

/// A game: its number and its draws.
pub struct Game {
    pub id: u16,
    pub pulls: Vec<Pull>,
}

/// Colour by colour the largest count among the draws; no cubes where there
/// is no draw.
pub open spec fn most(pulls: Seq<Pull>) -> Pull
    decreases pulls.len(),
{
    if pulls.len() == 0 {
        Pull { red: 0, green: 0, blue: 0 }
    } else {
        most(pulls.drop_last()).spec_max(pulls.last())
    }
}

/// No draw holds more of a colour than `most` says, and of each colour some
/// draw holds just that many, if any draw holds that colour at all.
pub proof fn lemma_most(pulls: Seq<Pull>)
    ensures
        forall|i: int|
            0 <= i < pulls.len() ==> (#[trigger] pulls[i]).red <= most(pulls).red && pulls[i].green
                <= most(pulls).green && pulls[i].blue <= most(pulls).blue,
        most(pulls).red == 0 || exists|i: int|
            0 <= i < pulls.len() && (#[trigger] pulls[i]).red == most(pulls).red,
        most(pulls).green == 0 || exists|i: int|
            0 <= i < pulls.len() && (#[trigger] pulls[i]).green == most(pulls).green,
        most(pulls).blue == 0 || exists|i: int|
            0 <= i < pulls.len() && (#[trigger] pulls[i]).blue == most(pulls).blue,
    decreases pulls.len(),
{
    if pulls.len() > 0 {
        let front = pulls.drop_last();
        let last = pulls.len() - 1;
        lemma_most(front);
        assert forall|i: int| 0 <= i < pulls.len() implies (#[trigger] pulls[i]).red <= most(
            pulls,
        ).red && pulls[i].green <= most(pulls).green && pulls[i].blue <= most(pulls).blue by {
            if i < last {
                assert(front[i] == pulls[i]);
            }
        }
        if most(pulls).red != 0 {
            if most(pulls).red == pulls[last].red {
            } else {
                let i = choose|i: int|
                    0 <= i < front.len() && (#[trigger] front[i]).red == most(front).red;
                assert(pulls[i] == front[i]);
            }
        }
        if most(pulls).green != 0 {
            if most(pulls).green == pulls[last].green {
            } else {
                let i = choose|i: int|
                    0 <= i < front.len() && (#[trigger] front[i]).green == most(front).green;
                assert(pulls[i] == front[i]);
            }
        }
        if most(pulls).blue != 0 {
            if most(pulls).blue == pulls[last].blue {
            } else {
                let i = choose|i: int|
                    0 <= i < front.len() && (#[trigger] front[i]).blue == most(front).blue;
                assert(pulls[i] == front[i]);
            }
        }
    }
}

impl Game {
    /// Whether the bag can have held the cubes of every draw.
    pub fn possible_part_1(&self) -> (possible: bool)
        ensures
            possible == forall|i: int|
                0 <= i < self.pulls@.len() ==> (#[trigger] self.pulls@[i]).red <= MAX_RED
                    && self.pulls@[i].green <= MAX_GREEN && self.pulls@[i].blue <= MAX_BLUE,
    {
        let max = self.largest();
        proof {
            lemma_most(self.pulls@);
        }
        max.red <= MAX_RED && max.green <= MAX_GREEN && max.blue <= MAX_BLUE
    }

    /// The fewest cubes of each colour that the bag must have held.
    pub fn minimum_possible_pull(self) -> (r: Pull)
        ensures
            r == most(self.pulls@),
    {
        self.largest()
    }

    /// Colour by colour the largest count among the draws.
    fn largest(&self) -> (r: Pull)
        ensures
            r == most(self.pulls@),
    {
        let mut max = Pull::default();
        let mut i: usize = 0;
        while i < self.pulls.len()
            invariant
                i <= self.pulls.len(),
                max == most(self.pulls@.take(i as int)),
            decreases self.pulls.len() - i,
        {
            proof {
                assert(self.pulls@.take(i + 1).drop_last() =~= self.pulls@.take(i as int));
            }
            max = max.max(self.pulls[i]);
            i = i + 1;
        }
        proof {
            assert(self.pulls@.take(i as int) =~= self.pulls@);
        }
        max
    }
}

/// A colour of cubes.
#[derive(Clone, Copy, Debug, PartialEq, Eq, Structural)]
pub enum Colour {
    Red,
    Green,
    Blue,
}

/// The colour whose name stands at the start of the text.
pub open spec fn colour_of(text: Seq<u8>) -> Option<Colour> {
    if text.len() >= 3 && text.take(3) == seq![0x72u8, 0x65, 0x64] {
        Some(Colour::Red)
    } else if text.len() >= 5 && text.take(5) == seq![0x67u8, 0x72, 0x65, 0x65, 0x6e] {
        Some(Colour::Green)
    } else if text.len() >= 4 && text.take(4) == seq![0x62u8, 0x6c, 0x75, 0x65] {
        Some(Colour::Blue)
    } else {
        None
    }
}

/// The draw of `count` cubes of one colour.
pub open spec fn of_colour(colour: Colour, count: u8) -> Pull {
    match colour {
        Colour::Red => Pull { red: count, green: 0, blue: 0 },
        Colour::Green => Pull { red: 0, green: count, blue: 0 },
        Colour::Blue => Pull { red: 0, green: 0, blue: count },
    }
}

/// The colour whose name stands at `from`, and where the name ends.
fn read_colour(bytes: &[u8], from: usize, to: usize) -> (r: Option<(Colour, usize)>)
    requires
        from <= to <= bytes@.len(),
    ensures
        match r {
            Some((colour, end)) => colour_of(bytes@.subrange(from as int, to as int)) == Some(
                colour,
            ) && from < end <= to && end - from == match colour {
                Colour::Red => 3int,
                Colour::Green => 5int,
                Colour::Blue => 4int,
            },
            None => colour_of(bytes@.subrange(from as int, to as int)) is None,
        },
{
    let ghost text = bytes@.subrange(from as int, to as int);
    let n = to - from;
    if n >= 3 && bytes[from] == 0x72 && bytes[from + 1] == 0x65 && bytes[from + 2] == 0x64 {
        proof {
            assert(text.take(3) =~= seq![0x72u8, 0x65, 0x64]);
        }
        return Some((Colour::Red, from + 3));
    }
    proof {
        if n >= 3 {
            assert(text.take(3)[0] == bytes@[from as int]);
            assert(text.take(3)[1] == bytes@[from + 1]);
            assert(text.take(3)[2] == bytes@[from + 2]);
        }
    }
    if n >= 5 && bytes[from] == 0x67 && bytes[from + 1] == 0x72 && bytes[from + 2] == 0x65
        && bytes[from + 3] == 0x65 && bytes[from + 4] == 0x6e {
        proof {
            assert(text.take(5) =~= seq![0x67u8, 0x72, 0x65, 0x65, 0x6e]);
        }
        return Some((Colour::Green, from + 5));
    }
    proof {
        if n >= 5 {
            assert(text.take(5)[0] == bytes@[from as int]);
            assert(text.take(5)[1] == bytes@[from + 1]);
            assert(text.take(5)[2] == bytes@[from + 2]);
            assert(text.take(5)[3] == bytes@[from + 3]);
            assert(text.take(5)[4] == bytes@[from + 4]);
        }
    }
    if n >= 4 && bytes[from] == 0x62 && bytes[from + 1] == 0x6c && bytes[from + 2] == 0x75
        && bytes[from + 3] == 0x65 {
        proof {
            assert(text.take(4) =~= seq![0x62u8, 0x6c, 0x75, 0x65]);
        }
        return Some((Colour::Blue, from + 4));
    }
    proof {
        if n >= 4 {
            assert(text.take(4)[0] == bytes@[from as int]);
            assert(text.take(4)[1] == bytes@[from + 1]);
            assert(text.take(4)[2] == bytes@[from + 2]);
            assert(text.take(4)[3] == bytes@[from + 3]);
        }
    }
    None
}

/// The text from `from` on starts with the word.
fn starts(bytes: &[u8], from: usize, to: usize, word: &[u8]) -> (r: bool)
    requires
        from <= to <= bytes@.len(),
    ensures
        r == (word@.len() <= to - from && bytes@.subrange(from as int, from + word@.len())
            == word@),
{
    if word.len() > to - from {
        return false;
    }
    let mut k: usize = 0;
    while k < word.len()
        invariant
            from + word@.len() <= to <= bytes@.len(),
            k <= word@.len(),
            forall|j: int| 0 <= j < k ==> bytes@[from + j] == word@[j],
        decreases word@.len() - k,
    {
        if bytes[from + k] != word[k] {
            proof {
                assert(bytes@.subrange(from as int, from + word@.len())[k as int] == bytes@[from
                    + k]);
            }
            return false;
        }
        k = k + 1;
    }
    proof {
        assert(bytes@.subrange(from as int, from + word@.len()) =~= word@);
    }
    true
}

/// How long the name of a colour is.
pub open spec fn name_len(colour: Colour) -> nat {
    match colour {
        Colour::Red => 3,
        Colour::Green => 5,
        Colour::Blue => 4,
    }
}

/// The cubes of one colour that stand at the start of the text: a count of
/// up to 255, a blank, and the name of the colour; with them, how many bytes
/// they take.
pub open spec fn item_of(text: Seq<u8>) -> Option<(Pull, nat)> {
    let digits = run(text) as int;
    let count = decimal(text.take(digits));
    if digits == 0 || count > 255 || digits >= text.len() || text[digits] != 0x20 {
        None
    } else {
        match colour_of(text.skip(digits + 1)) {
            Some(colour) => Some(
                (of_colour(colour, count as u8), (digits + 1 + name_len(colour)) as nat),
            ),
            None => None,
        }
    }
}

/// A comma and a blank stand at `at`.
pub open spec fn comma_at(text: Seq<u8>, at: int) -> bool {
    0 <= at && at + 2 <= text.len() && text[at] == 0x2c && text[at + 1] == 0x20
}

/// A semicolon and a blank stand at `at`.
pub open spec fn semicolon_at(text: Seq<u8>, at: int) -> bool {
    0 <= at && at + 2 <= text.len() && text[at] == 0x3b && text[at + 1] == 0x20
}

/// One of the colours would add up to more than 255.
pub open spec fn spills(sum: Pull, more: Pull) -> bool {
    sum.red + more.red > 255 || sum.green + more.green > 255 || sum.blue + more.blue > 255
}

/// The sum of two draws, colour by colour.
pub open spec fn plus(sum: Pull, more: Pull) -> Pull {
    Pull {
        red: (sum.red + more.red) as u8,
        green: (sum.green + more.green) as u8,
        blue: (sum.blue + more.blue) as u8,
    }
}

/// The draw that goes on at `at` with `sum` drawn so far: as long as a comma
/// and a blank and then cubes of a colour follow, these are added. The
/// result is the draw and where it ends; `None` where a colour adds up to
/// more than 255.
pub open spec fn rest_of_pull(text: Seq<u8>, sum: Pull, at: int) -> Option<(Pull, nat)>
    decreases text.len() - at,
{
    if comma_at(text, at) {
        match item_of(text.skip(at + 2)) {
            Some((more, length)) => if spills(sum, more) {
                None
            } else if length >= 1 && at + 2 + length <= text.len() {
                rest_of_pull(text, plus(sum, more), at + 2 + length)
            } else {
                None
            },
            None => Some((sum, at as nat)),
        }
    } else {
        Some((sum, at as nat))
    }
}

/// The draw that stands at the start of the text: the cubes of one colour
/// after the other, with a comma and a blank between them, added up. The
/// result is the draw and how many bytes it takes.
pub open spec fn pull_of(text: Seq<u8>) -> Option<(Pull, nat)> {
    match item_of(text) {
        Some((first, length)) => rest_of_pull(text, first, length as int),
        None => None,
    }
}

/// The draws that go on at `at` with `list` read so far: as long as a
/// semicolon and a blank follow, another draw is read. `None` where none is
/// there then, or where the text does not end with the last draw.
pub open spec fn rest_of_game(text: Seq<u8>, list: Seq<Pull>, at: int) -> Option<Seq<Pull>>
    decreases text.len() - at,
{
    if semicolon_at(text, at) {
        match pull_of(text.skip(at + 2)) {
            Some((pull, length)) => if length >= 1 && at + 2 + length <= text.len() {
                rest_of_game(text, list.push(pull), at + 2 + length)
            } else {
                None
            },
            None => None,
        }
    } else if at == text.len() {
        Some(list)
    } else {
        None
    }
}

/// The game that the text stands for: the word `Game`, a blank, its number
/// of up to 65535, a colon and a blank, and its draws with a semicolon and a
/// blank between them.
pub open spec fn game_of(text: Seq<u8>) -> Option<(nat, Seq<Pull>)> {
    let digits = run(text.skip(5)) as int;
    let id = decimal(text.subrange(5, 5 + digits));
    let after = 5 + digits;
    if text.len() < 5 || text.take(5) != seq![0x47u8, 0x61, 0x6d, 0x65, 0x20] || digits == 0 || id
        > 65535 || after + 2 > text.len() || text[after] != 0x3a || text[after + 1] != 0x20 {
        None
    } else {
        match pull_of(text.skip(after + 2)) {
            Some((first, length)) => match rest_of_game(
                text,
                seq![first],
                after + 2 + length,
            ) {
                Some(pulls) => Some((id, pulls)),
                None => None,
            },
            None => None,
        }
    }
}

/// No cubes take more bytes than the text has, nor none.
proof fn lemma_item(text: Seq<u8>)
    ensures
        item_of(text) matches Some((pull, length)) ==> 1 <= length <= text.len(),
{
    lemma_run(text);
    if item_of(text) is Some {
        let digits = run(text) as int;
        let rest = text.skip(digits + 1);
        let colour = colour_of(rest).unwrap();
        assert(rest.len() >= name_len(colour));
    }
}

/// Reads the cubes of one colour in a draw. The result is the draw and
/// where the text for it ends.
pub fn parse_pull_item(bytes: &[u8], from: usize, to: usize) -> (r: Option<(Pull, usize)>)
    requires
        from <= to <= bytes@.len(),
    ensures
        match r {
            Some((pull, end)) => from < end <= to && item_of(
                bytes@.subrange(from as int, to as int),
            ) == Some((pull, (end - from) as nat)),
            None => item_of(bytes@.subrange(from as int, to as int)) is None,
        },
{
    let line = slice_subrange(bytes, from, to);
    let (count, end) = read_number(line, 0);
    let ghost text = bytes@.subrange(from as int, to as int);
    proof {
        assert(line@ == text);
        assert(text.skip(0) =~= text);
        assert(text.subrange(0, end as int) =~= text.take(end as int));
        lemma_item(text);
    }
    let count = match count {
        Some(count) => count,
        None => {
            return None;
        },
    };
    if end == 0 || count > 255 || from + end >= to || bytes[from + end] != 0x20 {
        return None;
    }
    proof {
        assert(bytes@.subrange(from + end + 1, to as int) =~= text.skip(end + 1));
    }
    match read_colour(bytes, from + end + 1, to) {
        Some((colour, after)) => {
            let count = count as u8;
            let pull = match colour {
                Colour::Red => Pull::new_red(count),
                Colour::Green => Pull::new_green(count),
                Colour::Blue => Pull::new_blue(count),
            };
            Some((pull, after))
        },
        None => None,
    }
}

/// Reads a draw. The result is the draw and where the text for it ends.
pub fn parse_pull(bytes: &[u8], from: usize, to: usize) -> (r: Option<(Pull, usize)>)
    requires
        from <= to <= bytes@.len(),
    ensures
        match r {
            Some((pull, end)) => from < end <= to && pull_of(
                bytes@.subrange(from as int, to as int),
            ) == Some((pull, (end - from) as nat)),
            None => pull_of(bytes@.subrange(from as int, to as int)) is None,
        },
{
    let ghost text = bytes@.subrange(from as int, to as int);
    let (mut pull, mut at) = match parse_pull_item(bytes, from, to) {
        Some(read) => read,
        None => {
            return None;
        },
    };
    while to - at >= 2 && bytes[at] == 0x2c && bytes[at + 1] == 0x20
        invariant
            from < at <= to <= bytes@.len(),
            text == bytes@.subrange(from as int, to as int),
            rest_of_pull(text, pull, at - from) == pull_of(text),
        decreases to - at,
    {
        proof {
            assert(comma_at(text, at - from));
            assert(bytes@.subrange(at + 2, to as int) =~= text.skip(at - from + 2));
            lemma_item(text.skip(at - from + 2));
        }
        let (more, after) = match parse_pull_item(bytes, at + 2, to) {
            Some(read) => read,
            None => {
                return Some((pull, at));
            },
        };
        if more.red > 255 - pull.red || more.green > 255 - pull.green || more.blue > 255
            - pull.blue {
            return None;
        }
        pull = pull.add(more);
        at = after;
    }
    proof {
        assert(!comma_at(text, at - from));
    }
    Some((pull, at))
}

/// Reads a game. `None` where the text is not all of a game.
pub fn parse_game(input: &str) -> (r: Option<Game>)
    ensures
        match r {
            Some(game) => game_of(input.spec_bytes()) == Some((game.id as nat, game.pulls@)),
            None => game_of(input.spec_bytes()) is None,
        },
{
    read_game(input.as_bytes())
}

/// Reads a game from its bytes.
fn read_game(bytes: &[u8]) -> (r: Option<Game>)
    ensures
        match r {
            Some(game) => game_of(bytes@) == Some((game.id as nat, game.pulls@)),
            None => game_of(bytes@) is None,
        },
{
    let n = bytes.len();
    let ghost text = bytes@;
    let word: [u8; 5] = [0x47, 0x61, 0x6d, 0x65, 0x20];
    proof {
        assert(word@ =~= seq![0x47u8, 0x61, 0x6d, 0x65, 0x20]);
        if n >= 5 {
            assert(text.subrange(0, 5) =~= text.take(5));
        }
    }
    if !starts(bytes, 0, n, word.as_slice()) {
        return None;
    }
    let (id, after) = read_number(bytes, 5);
    let id = match id {
        Some(id) => id,
        None => {
            return None;
        },
    };
    if after == 5 || id > 65535 || n - after < 2 || bytes[after] != 0x3a || bytes[after + 1]
        != 0x20 {
        return None;
    }
    proof {
        assert(text.subrange(after + 2, n as int) =~= text.skip(after + 2));
    }
    let mut pulls: Vec<Pull> = Vec::new();
    let (first, mut at) = match parse_pull(bytes, after + 2, n) {
        Some(read) => read,
        None => {
            return None;
        },
    };
    pulls.push(first);
    proof {
        assert(pulls@ =~= seq![first]);
    }
    while n - at >= 2 && bytes[at] == 0x3b && bytes[at + 1] == 0x20
        invariant
            at <= n,
            n == bytes@.len(),
            text == bytes@,
            game_of(text) == match rest_of_game(text, pulls@, at as int) {
                Some(list) => Some((id as nat, list)),
                None => None,
            },
        decreases n - at,
    {
        proof {
            assert(semicolon_at(text, at as int));
            assert(text.subrange(at + 2, n as int) =~= text.skip(at + 2));
        }
        let (pull, after) = match parse_pull(bytes, at + 2, n) {
            Some(read) => read,
            None => {
                return None;
            },
        };
        pulls.push(pull);
        at = after;
    }
    proof {
        assert(!semicolon_at(text, at as int));
    }
    if at != n {
        return None;
    }
    Some(Game { id: id as u16, pulls })
}

/// No draw holds more cubes of a colour than the bag.
pub open spec fn possible(pulls: Seq<Pull>) -> bool {
    forall|i: int|
        0 <= i < pulls.len() ==> (#[trigger] pulls[i]).red <= MAX_RED && pulls[i].green
            <= MAX_GREEN && pulls[i].blue <= MAX_BLUE
}

/// What a line counts for: the number of its game where the game is
/// possible, and 0 where it is not; or, where `power` holds, the power of the
/// fewest cubes that make the game possible. `None` where the line holds no
/// game.
pub open spec fn worth(line: Seq<u8>, power: bool) -> Option<nat> {
    match game_of(line) {
        Some((id, pulls)) => Some(
            if power {
                (most(pulls).red * most(pulls).green * most(pulls).blue) as nat
            } else if possible(pulls) {
                id
            } else {
                0
            },
        ),
        None => None,
    }
}

/// The sum of what the lines count for, which is `None` above `limit`.
pub open spec fn answer(text: Seq<Seq<u8>>, power: bool, limit: nat) -> Option<nat> {
    sum_of(text, |line: Seq<u8>| worth(line, power), limit)
}

/// The sum of what the lines of the text count for.
fn solve(input: &str, power: bool, limit: usize) -> (r: Option<usize>)
    ensures
        match r {
            Some(total) => answer(lines(input.spec_bytes()), power, limit as nat) == Some(
                total as nat,
            ),
            None => answer(lines(input.spec_bytes()), power, limit as nat) is None,
        },
{
    let rows = split_lines(input.as_bytes());
    let ghost text = lines(input.spec_bytes());
    let ghost value = |line: Seq<u8>| worth(line, power);
    let mut total: usize = 0;
    let mut i: usize = 0;
    proof {
        assert(text.take(0) =~= Seq::<Seq<u8>>::empty());
    }
    while i < rows.len()
        invariant
            i <= rows@.len(),
            text == rows_of(rows@),
            text == lines(input.spec_bytes()),
            value == |line: Seq<u8>| worth(line, power),
            sum_of(text.take(i as int), value, limit as nat) == Some(total as nat),
            total <= limit,
        decreases rows@.len() - i,
    {
        proof {
            lemma_sum_step(text, value, limit as nat, i as int);
            lemma_sum_prefix(text, value, limit as nat, i + 1);
        }
        let game = match read_game(rows[i].as_slice()) {
            Some(game) => game,
            None => {
                return None;
            },
        };
        let count = if power {
            game.minimum_possible_pull().power()
        } else if game.possible_part_1() {
            game.id as usize
        } else {
            0
        };
        if count > limit - total {
            return None;
        }
        total = total + count;
        i = i + 1;
    }
    proof {
        assert(text.take(i as int) =~= text);
    }
    Some(total)
}

/// The sum of the numbers of the games of the text that are possible with
/// the cubes of the bag. `None` where a line holds no game, or where the sum
/// is above 65535.
pub fn solve_part1(input: &str) -> (r: Option<u16>)
    ensures
        match r {
            Some(total) => answer(lines(input.spec_bytes()), false, 65535) == Some(total as nat),
            None => answer(lines(input.spec_bytes()), false, 65535) is None,
        },
{
    match solve(input, false, 65535) {
        Some(total) => Some(total as u16),
        None => None,
    }
}

/// The sum, over the games of the text, of the power of the fewest cubes
/// that make the game possible. `None` where a line holds no game, or where
/// the sum is no number of the machine.
pub fn solve_part2(input: &str) -> (r: Option<usize>)
    ensures
        match r {
            Some(total) => answer(lines(input.spec_bytes()), true, usize::MAX as nat) == Some(
                total as nat,
            ),
            None => answer(lines(input.spec_bytes()), true, usize::MAX as nat) is None,
        },
{
    solve(input, true, usize::MAX)
}

} // verus!
