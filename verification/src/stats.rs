//! Cumulative play statistics: totals, times and streaks, with the derived
//! rates shown on the statistics screen. How they are persisted is the
//! presentation layer's concern.

use vstd::prelude::*;

verus! {

#[derive(Copy, Clone, Debug, PartialEq, Eq, Structural)]
pub struct Stats {
    pub games: u32,
    pub won: u32,
    pub highest_time: u32,
    pub lowest_time: u32,
    pub total_time: u32,
    pub longest_streak: u32,
    pub current_streak: u32,
}

impl Stats {
    pub open spec fn zero() -> Stats {
        Stats {
            games: 0,
            won: 0,
            highest_time: 0,
            lowest_time: 0,
            total_time: 0,
            longest_streak: 0,
            current_streak: 0,
        }
    }

    pub fn new() -> (r: Stats)
        ensures
            r == Stats::zero(),
    {
        Stats {
            games: 0,
            won: 0,
            highest_time: 0,
            lowest_time: 0,
            total_time: 0,
            longest_streak: 0,
            current_streak: 0,
        }
    }

    /// Percentage of games won, or 0 when no game has been played.
    pub fn win_rate(&self) -> (r: u32)
        requires
            self.won as int * 100 <= u32::MAX as int,
        ensures
            self.games == 0 ==> r == 0,
            self.games != 0 ==> r == self.won as int * 100 / self.games as int,
    {
        if self.games == 0 {
            0
        } else {
            self.won * 100 / self.games
        }
    }

    /// Mean winning time in seconds, or 0 when no game has been won.
    pub fn average_time(&self) -> (r: u32)
        ensures
            self.won == 0 ==> r == 0,
            self.won != 0 ==> r == self.total_time as int / self.won as int,
    {
        if self.won == 0 {
            0
        } else {
            self.total_time / self.won
        }
    }
}

/// The decimal digit characters, least to greatest.
pub open spec fn digit_char(d: int) -> char {
    if d == 0 {
        '0'
    } else if d == 1 {
        '1'
    } else if d == 2 {
        '2'
    } else if d == 3 {
        '3'
    } else if d == 4 {
        '4'
    } else if d == 5 {
        '5'
    } else if d == 6 {
        '6'
    } else if d == 7 {
        '7'
    } else if d == 8 {
        '8'
    } else {
        '9'
    }
}

/// The decimal rendering of a number, most significant digit first.
pub open spec fn dec_chars(n: int) -> Seq<char>
    decreases n,
{
    if n < 10 {
        seq![digit_char(n)]
    } else {
        dec_chars(n / 10).push(digit_char(n % 10))
    }
}

/// The clock rendering of a second count: minutes, a colon and two seconds
/// digits, with a leading space while the minutes are a single digit.
pub open spec fn time_str_spec(secs: int) -> Seq<char> {
    let m = secs / 60;
    let s = secs % 60;
    let min_part = if m < 10 {
        seq![' '] + dec_chars(m)
    } else {
        dec_chars(m)
    };
    let sec_part = if s < 10 {
        seq!['0', digit_char(s)]
    } else {
        dec_chars(s)
    };
    min_part + seq![':'] + sec_part
}

fn push_digit(out: &mut String, d: u32)
    requires
        d < 10,
    ensures
        final(out)@ == old(out)@ + seq![digit_char(d as int)],
{
    match d {
        0 => {
            out.append("0");
            proof {
                reveal_strlit("0");
                assert(out@ =~= old(out)@ + seq![digit_char(d as int)]);
            }
        }
        1 => {
            out.append("1");
            proof {
                reveal_strlit("1");
                assert(out@ =~= old(out)@ + seq![digit_char(d as int)]);
            }
        }
        2 => {
            out.append("2");
            proof {
                reveal_strlit("2");
                assert(out@ =~= old(out)@ + seq![digit_char(d as int)]);
            }
        }
        3 => {
            out.append("3");
            proof {
                reveal_strlit("3");
                assert(out@ =~= old(out)@ + seq![digit_char(d as int)]);
            }
        }
        4 => {
            out.append("4");
            proof {
                reveal_strlit("4");
                assert(out@ =~= old(out)@ + seq![digit_char(d as int)]);
            }
        }
        5 => {
            out.append("5");
            proof {
                reveal_strlit("5");
                assert(out@ =~= old(out)@ + seq![digit_char(d as int)]);
            }
        }
        6 => {
            out.append("6");
            proof {
                reveal_strlit("6");
                assert(out@ =~= old(out)@ + seq![digit_char(d as int)]);
            }
        }
        7 => {
            out.append("7");
            proof {
                reveal_strlit("7");
                assert(out@ =~= old(out)@ + seq![digit_char(d as int)]);
            }
        }
        8 => {
            out.append("8");
            proof {
                reveal_strlit("8");
                assert(out@ =~= old(out)@ + seq![digit_char(d as int)]);
            }
        }
        _ => {
            out.append("9");
            proof {
                reveal_strlit("9");
                assert(out@ =~= old(out)@ + seq![digit_char(d as int)]);
            }
        }
    }
}

fn push_dec(out: &mut String, n: u32)
    ensures
        final(out)@ == old(out)@ + dec_chars(n as int),
    decreases n,
{
    if n >= 10 {
        push_dec(out, n / 10);
        push_digit(out, n % 10);
        proof {
            assert(out@ =~= old(out)@ + dec_chars(n as int));
        }
    } else {
        push_digit(out, n);
        proof {
            assert(out@ =~= old(out)@ + dec_chars(n as int));
        }
    }
}

/// The play clock as text: minutes and seconds, `MM:SS`.
pub fn time_str(secs: u32) -> (r: String)
    ensures
        r@ == time_str_spec(secs as int),
{
    let m = secs / 60;
    let s = secs % 60;
    let mut out = String::from_str("");
    proof {
        reveal_strlit("");
        assert(out@ =~= Seq::<char>::empty());
    }
    if m < 10 {
        out.append(" ");
    }
    push_dec(&mut out, m);
    out.append(":");
    if s < 10 {
        out.append("0");
    }
    push_dec(&mut out, s);
    proof {
        reveal_strlit(" ");
        reveal_strlit(":");
        reveal_strlit("0");
        assert(out@ =~= time_str_spec(secs as int));
    }
    out
}

impl Default for Stats {
    fn default() -> (r: Stats)
        ensures
            r == Stats::zero(),
    {
        Stats::new()
    }
}

} // verus!
