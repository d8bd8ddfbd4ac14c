//! Small decisions of the player window: the clock text, the output port
//! to select, and how the seek slider and the density view follow playback.

use vstd::prelude::*;
use vstd::string::StringExecFns;

verus! {

/// The character of decimal digit `d`.
pub open spec fn digit_char(d: int) -> char {
    (('0' as int) + d) as char
}

/// The decimal digits of `n`, most significant first.
pub open spec fn decimal(n: nat) -> Seq<char>
    decreases n,
{
    if n < 10 {
        seq![digit_char(n as int)]
    } else {
        decimal(n / 10).push(digit_char((n % 10) as int))
    }
}

/// The text `m:ss` for a clock of `secs` whole seconds.
pub open spec fn clock_text(secs: nat) -> Seq<char> {
    let s = secs % 60;
    decimal(secs / 60) + seq![':'] + if s < 10 {
        seq!['0'] + decimal(s)
    } else {
        decimal(s)
    }
}

fn digit_str(d: u64) -> (r: &'static str)
    requires
        d < 10,
    ensures
        r@ == seq![digit_char(d as int)],
{
    proof {
        reveal_strlit("0");
        reveal_strlit("1");
        reveal_strlit("2");
        reveal_strlit("3");
        reveal_strlit("4");
        reveal_strlit("5");
        reveal_strlit("6");
        reveal_strlit("7");
        reveal_strlit("8");
        reveal_strlit("9");
    }
    match d {
        0 => "0",
        1 => "1",
        2 => "2",
        3 => "3",
        4 => "4",
        5 => "5",
        6 => "6",
        7 => "7",
        8 => "8",
        _ => "9",
    }
}

fn append_decimal(s: &mut String, n: u64)
    ensures
        final(s)@ == old(s)@ + decimal(n as nat),
    decreases n,
{
    if n >= 10 {
        append_decimal(s, n / 10);
    }
    s.append(digit_str(n % 10));
}

/// Formats a clock of `secs` whole seconds as minutes and two-digit
/// seconds, `m:ss`.
pub fn format_time(secs: u64) -> (r: String)
    ensures
        r@ == clock_text(secs as nat),
{
    let mut r = String::new();
    append_decimal(&mut r, secs / 60);
    proof {
        reveal_strlit(":");
        reveal_strlit("0");
    }
    r.append(":");
    let s = secs % 60;
    if s < 10 {
        r.append("0");
    }
    append_decimal(&mut r, s);
    r
}

/// The output port to select among `ports`, given the name of the port in
/// use: none when there are no ports, else the first port of that name, else
/// the first port.
pub fn select_port_index(ports: &Vec<String>, current: Option<&str>) -> (r: Option<usize>)
    ensures
        ports.len() == 0 ==> r is None,
        ports.len() > 0 ==> r is Some && r->Some_0 < ports.len(),
        ports.len() > 0 ==> match current {
            Some(name) => if exists|i: int| 0 <= i < ports.len() && ports[i]@ == name@ {
                ports[r->Some_0 as int]@ == name@ && forall|i: int| 0 <= i < r->Some_0 ==> #[trigger] ports[i]@ != name@
            } else {
                r == Some(0usize)
            },
            None => r == Some(0usize),
        },
{
    if ports.len() == 0 {
        return None;
    }
    if let Some(name) = current {
        let wanted = String::from_str(name);
        let mut i: usize = 0;
        while i < ports.len()
            invariant
                i <= ports.len(),
                wanted@ == name@,
                current == Some(name),
                ports.len() > 0,
                forall|k: int| 0 <= k < i ==> #[trigger] ports[k]@ != name@,
            decreases ports.len() - i,
        {
            if ports[i] == wanted {
                assert(ports[i as int]@ == name@);
                return Some(i);
            }
            i = i + 1;
        }
    }
    Some(0)
}

/// Which position display follows which on a timer tick.
#[derive(Clone, Copy, Debug, PartialEq, Eq, Structural)]
pub enum PositionSync {
    /// The slider and the density view show the engine's position.
    FollowEngine,
    /// The slider shows where the density view is being dragged.
    SliderFollowsDensity,
    /// The density view shows where the slider is being dragged.
    DensityFollowsSlider,
    /// Nothing moves.
    Hold,
}

/// What the window does with the seek slider on a timer tick.
#[derive(Clone, Copy, Debug, PartialEq, Eq, Structural)]
pub struct SliderStep {
    /// Whether the slider counts as held down from now on.
    pub held: bool,
    /// Whether to seek the engine to the slider's value now.
    pub seek: bool,
    /// Which display follows which.
    pub sync: PositionSync,
}

/// The slider step for a tick on which the slider was held down before
/// (`was_held`) and is held down now (`held`), the density view is being
/// dragged or not, and the engine is playing or not: a slider drag seeks
/// once, on the first tick after it is released; while the slider is held
/// the density view follows it; while the density view is dragged the
/// slider follows it; otherwise, while playing, both follow the engine.
pub open spec fn slider_step_of(was_held: bool, held: bool, density_dragging: bool, playing: bool) -> SliderStep {
    if held {
        SliderStep {
            held: true,
            seek: false,
            sync: if density_dragging {
                PositionSync::Hold
            } else {
                PositionSync::DensityFollowsSlider
            },
        }
    } else {
        SliderStep {
            held: false,
            seek: was_held,
            sync: if density_dragging {
                PositionSync::SliderFollowsDensity
            } else if playing {
                PositionSync::FollowEngine
            } else {
                PositionSync::Hold
            },
        }
    }
}

/// Decides what the window does with the seek slider on a timer tick (see
/// [`slider_step_of`]).
pub fn slider_step(was_held: bool, held: bool, density_dragging: bool, playing: bool) -> (r: SliderStep)
    ensures
        r == slider_step_of(was_held, held, density_dragging, playing),
{
    if held {
        let sync = if density_dragging {
            PositionSync::Hold
        } else {
            PositionSync::DensityFollowsSlider
        };
        SliderStep { held: true, seek: false, sync }
    } else {
        let sync = if density_dragging {
            PositionSync::SliderFollowsDensity
        } else if playing {
            PositionSync::FollowEngine
        } else {
            PositionSync::Hold
        };
        SliderStep { held: false, seek: was_held, sync }
    }
}

} // verus!
