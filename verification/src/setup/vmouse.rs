//! The step-size settings of the mouse: one `STEP_SIZE` number and a mode.
use vstd::prelude::*;
use crate::config::{all_digits, digits_value, lemma_digits_value_nonneg, parse_i32, parse_i32_spec, ConfigError, ErrorKind};
use crate::text::{same_text, split, split_spec, string_views, views};

verus! {

/// The mouse settings: the step size of a move and the current mode.
#[derive(Clone, Copy, PartialEq, Eq, Debug, Structural)]
pub struct Config {
    pub step_size: u16,
    pub mode: u8,
}

impl Config {
    /// Step size 0, mode 0.
    pub fn new() -> (r: Config)
        ensures
            r == (Config { step_size: 0, mode: 0 }),
    {
        Config { step_size: 0, mode: 0 }
    }
}

/// What `str::parse::<u16>` accepts: an optional `+`, then one or more
/// decimal digits, whose value fits in a `u16`.
pub open spec fn parse_u16_spec(s: Seq<char>) -> Option<u16> {
    let body = if s.len() > 0 && s[0] == '+' { s.skip(1) } else { s };
    if all_digits(body) && digits_value(body) <= u16::MAX {
        Some(digits_value(body) as u16)
    } else {
        None
    }
}

/// Parses a decimal `u16` as `str::parse::<u16>` does.
pub fn parse_u16(s: &str) -> (r: Option<u16>)
    ensures
        r == parse_u16_spec(s@),
{
    let n = s.unicode_len();
    if n > 0 && s.get_char(0) == '-' {
        proof {
            let body = s@;
            assert(!crate::config::is_digit(body[0]));
        }
        return None;
    }
    proof {
        let body = if s@.len() > 0 && s@[0] == '+' { s@.skip(1) } else { s@ };
        if all_digits(body) {
            lemma_digits_value_nonneg(body);
        }
    }
    match parse_i32(s) {
        Some(v) => {
            if 0 <= v && v <= 0xffff {
                Some(v as u16)
            } else {
                None
            }
        },
        None => None,
    }
}

/// The outcome of reading the mouse settings.
pub type ConfigOutcome = Result<Config, (ErrorKind, Seq<char>)>;

/// A setting line `NAME : value` applied to the settings: `STEP_SIZE` takes
/// its number, other names are ignored.
pub open spec fn config_line(c: Config, line: Seq<char>) -> ConfigOutcome {
    let parts = split_spec(line, ":"@);
    if parts.len() != 2 {
        Err((ErrorKind::InvalidVmouseLine, line))
    } else if parts[0] == "STEP_SIZE"@ {
        match parse_u16_spec(parts[1]) {
            Some(n) => Ok(Config { step_size: n, ..c }),
            None => Err((ErrorKind::InvalidVmouseNumber, parts[1])),
        }
    } else {
        Ok(c)
    }
}

/// The settings read from setting lines, starting from step size 0 and
/// mode 0; the first bad line refuses them.
pub open spec fn config_spec(lines: Seq<Seq<char>>) -> ConfigOutcome
    decreases lines.len(),
{
    if lines.len() == 0 {
        Ok(Config { step_size: 0, mode: 0 })
    } else {
        match config_spec(lines.drop_last()) {
            Ok(c) => config_line(c, lines.last()),
            Err(e) => Err(e),
        }
    }
}

/// The view of settings read in exec code.
pub open spec fn config_outcome(r: Result<Config, ConfigError>) -> ConfigOutcome {
    match r {
        Ok(c) => Ok(c),
        Err(e) => Err(e@),
    }
}

proof fn lemma_config_stays_refused(ls: Seq<Seq<char>>, k: int)
    requires
        0 <= k <= ls.len(),
        config_spec(ls.take(k)) is Err,
    ensures
        config_spec(ls) == config_spec(ls.take(k)),
    decreases ls.len() - k,
{
    if k < ls.len() {
        assert(ls.take(k + 1).drop_last() =~= ls.take(k));
        lemma_config_stays_refused(ls, k + 1);
    } else {
        assert(ls.take(k) =~= ls);
    }
}

/// Reads the mouse settings from the setting lines of the mouse settings
/// file (see `config_line`).
pub fn load_default(lines: &Vec<String>) -> (r: Result<Config, ConfigError>)
    ensures
        config_outcome(r) == config_spec(string_views(lines@)),
{
    let ghost ls = string_views(lines@);
    let mut cfg = Config::new();
    let colon = ":";
    proof {
        reveal_strlit(":");
    }
    let mut i: usize = 0;
    assert(ls.take(0) =~= Seq::<Seq<char>>::empty());
    while i < lines.len()
        invariant
            i <= lines@.len(),
            ls == string_views(lines@),
            colon@ == ":"@,
            colon@.len() == 1,
            config_spec(ls.take(i as int)) == Ok::<Config, (ErrorKind, Seq<char>)>(cfg),
        decreases lines@.len() - i,
    {
        proof {
            assert(ls.take(i + 1).drop_last() =~= ls.take(i as int));
            assert(ls.take(i + 1).last() == lines@[i as int]@);
        }
        let line = lines[i].as_str();
        let parts = split(line, colon);
        if parts.len() != 2 {
            proof {
                lemma_config_stays_refused(ls, i + 1);
            }
            return Err(ConfigError { kind: ErrorKind::InvalidVmouseLine, text: line.to_owned() });
        }
        assert(views(parts@)[0] == parts@[0]@);
        assert(views(parts@)[1] == parts@[1]@);
        if same_text(parts[0], "STEP_SIZE") {
            match parse_u16(parts[1]) {
                Some(n) => {
                    cfg.step_size = n;
                },
                None => {
                    proof {
                        lemma_config_stays_refused(ls, i + 1);
                    }
                    return Err(
                        ConfigError { kind: ErrorKind::InvalidVmouseNumber, text: parts[1].to_owned() },
                    );
                },
            }
        }
        i = i + 1;
    }
    assert(ls.take(lines@.len() as int) =~= ls);
    Ok(cfg)
}

} // verus!
