//! The virtual mouse's properties and their settings file.
use vstd::prelude::*;
use crate::config::{parse_i32, parse_i32_spec, ConfigError, ErrorKind};
use crate::outside::{to_uppercase, uppercase};
use crate::text::{same_text, split, split_spec, string_views, views};

verus! {

/// The state of the virtual mouse: its mode (0 inactive, 1 linear,
/// 2 logarithmic, 3 scroll), which mode keys are grabbed, the current step
/// and scroll distances with their lower bounds, and the accumulated
/// high-resolution scroll not yet reported as a wheel notch.
#[derive(Clone, Copy, PartialEq, Eq, Debug, Structural)]
pub struct Props {
    pub mode: u8,
    pub grab_linear: bool,
    pub grab_logarithmic: bool,
    pub grab_scroll: bool,
    pub step_size_x: i32,
    pub step_size_y: i32,
    pub scroll_dist_x: i32,
    pub scroll_dist_y: i32,
    pub min_step_size_x: i32,
    pub min_step_size_y: i32,
    pub min_scroll_dist_x: i32,
    pub min_scroll_dist_y: i32,
    pub scroll_accum_x: i32,
    pub scroll_accum_y: i32,
}

/// Mode 0, nothing grabbed, every distance 0.
pub open spec fn zero_props() -> Props {
    Props {
        mode: 0,
        grab_linear: false,
        grab_logarithmic: false,
        grab_scroll: false,
        step_size_x: 0,
        step_size_y: 0,
        scroll_dist_x: 0,
        scroll_dist_y: 0,
        min_step_size_x: 0,
        min_step_size_y: 0,
        min_scroll_dist_x: 0,
        min_scroll_dist_y: 0,
        scroll_accum_x: 0,
        scroll_accum_y: 0,
    }
}

/// `p` with its step sizes and scroll distances taken from `defaults`.
pub open spec fn reset_xy_spec(p: Props, defaults: Props) -> Props {
    Props {
        step_size_x: defaults.step_size_x,
        step_size_y: defaults.step_size_y,
        scroll_dist_x: defaults.scroll_dist_x,
        scroll_dist_y: defaults.scroll_dist_y,
        ..p
    }
}

impl Props {
    /// Mode 0, nothing grabbed, every distance 0.
    pub fn new() -> (r: Props)
        ensures
            r == zero_props(),
    {
        Props {
            mode: 0,
            grab_linear: false,
            grab_logarithmic: false,
            grab_scroll: false,
            step_size_x: 0,
            step_size_y: 0,
            scroll_dist_x: 0,
            scroll_dist_y: 0,
            min_step_size_x: 0,
            min_step_size_y: 0,
            min_scroll_dist_x: 0,
            min_scroll_dist_y: 0,
            scroll_accum_x: 0,
            scroll_accum_y: 0,
        }
    }

    /// Restores the step sizes and scroll distances of `defaults`.
    pub fn reset_xy(&mut self, defaults: &Props)
        ensures
            *final(self) == reset_xy_spec(*old(self), *defaults),
    {
        self.step_size_x = defaults.step_size_x;
        self.step_size_y = defaults.step_size_y;
        self.scroll_dist_x = defaults.scroll_dist_x;
        self.scroll_dist_y = defaults.scroll_dist_y;
    }
}

/// The outcome of reading mouse settings.
pub type PropsOutcome = Result<Props, (ErrorKind, Seq<char>)>;

/// A numeric setting: the value parsed as an `i32`, or refused.
pub open spec fn number_setting(v: Seq<char>, set: spec_fn(i32) -> Props) -> PropsOutcome {
    match parse_i32_spec(v) {
        Some(n) => Ok(set(n)),
        None => Err((ErrorKind::InvalidVmouseNumber, v)),
    }
}

/// A setting line `NAME : value` applied to the properties; unknown names
/// are ignored. A grab setting is on iff its upper-cased value is `TRUE`.
pub open spec fn props_line(p: Props, line: Seq<char>) -> PropsOutcome {
    let parts = split_spec(line, ":"@);
    if parts.len() != 2 {
        Err((ErrorKind::InvalidVmouseLine, line))
    } else {
        let k = parts[0];
        let v = parts[1];
        let on = uppercase(v) == "TRUE"@;
        if k == "GRAB_LINEAR"@ {
            Ok(Props { grab_linear: on, ..p })
        } else if k == "GRAB_LOGARITHMIC"@ {
            Ok(Props { grab_logarithmic: on, ..p })
        } else if k == "GRAB_SCROLL"@ {
            Ok(Props { grab_scroll: on, ..p })
        } else if k == "STEP_SIZE_X"@ {
            number_setting(v, |n: i32| Props { step_size_x: n, ..p })
        } else if k == "STEP_SIZE_Y"@ {
            number_setting(v, |n: i32| Props { step_size_y: n, ..p })
        } else if k == "SCROLL_DIST_X"@ {
            number_setting(v, |n: i32| Props { scroll_dist_x: n, ..p })
        } else if k == "SCROLL_DIST_Y"@ {
            number_setting(v, |n: i32| Props { scroll_dist_y: n, ..p })
        } else {
            Ok(p)
        }
    }
}

/// The default properties read from the setting lines, starting from
/// `zero_props`; the first bad line refuses them.
pub open spec fn props_spec(lines: Seq<Seq<char>>) -> PropsOutcome
    decreases lines.len(),
{
    if lines.len() == 0 {
        Ok(zero_props())
    } else {
        match props_spec(lines.drop_last()) {
            Ok(p) => props_line(p, lines.last()),
            Err(e) => Err(e),
        }
    }
}

/// The view of properties read in exec code.
pub open spec fn props_outcome(r: Result<Props, ConfigError>) -> PropsOutcome {
    match r {
        Ok(p) => Ok(p),
        Err(e) => Err(e@),
    }
}

fn number_value(v: &str) -> (r: Result<i32, ConfigError>)
    ensures
        match r {
            Ok(n) => parse_i32_spec(v@) == Some(n),
            Err(e) => parse_i32_spec(v@) is None && e@ == (ErrorKind::InvalidVmouseNumber, v@),
        },
{
    match parse_i32(v) {
        Some(n) => Ok(n),
        None => Err(ConfigError { kind: ErrorKind::InvalidVmouseNumber, text: v.to_owned() }),
    }
}

/// Applies one setting line to the properties (see `props_line`).
fn apply_props_line(p: &mut Props, line: &str) -> (r: Result<(), ConfigError>)
    ensures
        match r {
            Ok(()) => props_line(*old(p), line@) == Ok::<Props, (ErrorKind, Seq<char>)>(*final(p)),
            Err(e) => props_line(*old(p), line@) == Err::<Props, (ErrorKind, Seq<char>)>(e@),
        },
{
    let colon = ":";
    proof {
        reveal_strlit(":");
    }
    let parts = split(line, colon);
    if parts.len() != 2 {
        return Err(ConfigError { kind: ErrorKind::InvalidVmouseLine, text: line.to_owned() });
    }
    assert(views(parts@)[0] == parts@[0]@);
    assert(views(parts@)[1] == parts@[1]@);
    let k = parts[0];
    let v = parts[1];
    let upper = to_uppercase(v);
    let on = same_text(upper.as_str(), "TRUE");
    if same_text(k, "GRAB_LINEAR") {
        p.grab_linear = on;
    } else if same_text(k, "GRAB_LOGARITHMIC") {
        p.grab_logarithmic = on;
    } else if same_text(k, "GRAB_SCROLL") {
        p.grab_scroll = on;
    } else if same_text(k, "STEP_SIZE_X") {
        p.step_size_x = number_value(v)?;
    } else if same_text(k, "STEP_SIZE_Y") {
        p.step_size_y = number_value(v)?;
    } else if same_text(k, "SCROLL_DIST_X") {
        p.scroll_dist_x = number_value(v)?;
    } else if same_text(k, "SCROLL_DIST_Y") {
        p.scroll_dist_y = number_value(v)?;
    }
    Ok(())
}

/// Reads the default mouse properties from the setting lines of the mouse
/// settings file (see `props_line`).
pub fn load_default_props(lines: &Vec<String>) -> (r: Result<Props, ConfigError>)
    ensures
        props_outcome(r) == props_spec(string_views(lines@)),
{
    let ghost ls = string_views(lines@);
    let mut cfg = Props::new();
    let mut i: usize = 0;
    assert(ls.take(0) =~= Seq::<Seq<char>>::empty());
    while i < lines.len()
        invariant
            i <= lines@.len(),
            ls == string_views(lines@),
            props_spec(ls.take(i as int)) == Ok::<Props, (ErrorKind, Seq<char>)>(cfg),
        decreases lines@.len() - i,
    {
        proof {
            assert(ls.take(i + 1).drop_last() =~= ls.take(i as int));
            assert(ls.take(i + 1).last() == lines@[i as int]@);
        }
        match apply_props_line(&mut cfg, lines[i].as_str()) {
            Ok(()) => {},
            Err(e) => {
                proof {
                    lemma_props_stay_refused(ls, i + 1);
                }
                return Err(e);
            },
        }
        i = i + 1;
    }
    assert(ls.take(lines@.len() as int) =~= ls);
    Ok(cfg)
}

proof fn lemma_props_stay_refused(ls: Seq<Seq<char>>, k: int)
    requires
        0 <= k <= ls.len(),
        props_spec(ls.take(k)) is Err,
    ensures
        props_spec(ls) == props_spec(ls.take(k)),
    decreases ls.len() - k,
{
    if k < ls.len() {
        assert(ls.take(k + 1).drop_last() =~= ls.take(k));
        lemma_props_stay_refused(ls, k + 1);
    } else {
        assert(ls.take(k) =~= ls);
    }
}

} // verus!
