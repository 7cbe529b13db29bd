//! User configuration for the interactive selector: whether it is enabled and
//! the command line that launches it, plus the pure parts of driving it —
//! splitting the command line into words, preparing the menu input, and
//! interpreting the menu's answer. Spawning the subprocess itself is the
//! surrounding application's job.
use vstd::prelude::*;
use crate::error::Error;

verus! {

/// What `shlex::split` returns for a given string: a function of the
/// characters alone.
pub uninterp spec fn shlex_split_of(s: Seq<char>) -> Option<Seq<Seq<char>>>;

/// The mathematical view of a vector of strings.
pub open spec fn strings_view(v: Seq<String>) -> Seq<Seq<char>> {
    Seq::new(v.len(), |i: int| v[i]@)
}

/// Relies on shlex::split: splits a command line into words by POSIX shell
/// word-splitting rules, returning None on erroneous input such as an
/// unclosed quotation.
#[verifier::external_body]
fn shlex_split(s: &str) -> (r: Option<Vec<String>>)
    ensures
        match r {
            Some(v) => shlex_split_of(s@) == Some(strings_view(v@)),
            None => shlex_split_of(s@) is None,
        },
{
    shlex::split(s)
}

/// Configuration of the interactive selection menu.
pub struct Config {
    pub enable_selector: bool,
    pub selector: String,
}

impl Default for Config {
    /// The selector is disabled by default; the default command is a `rofi`
    /// menu prompt.
    fn default() -> (r: Config)
        ensures
            r.enable_selector == false,
            r.selector@ == "rofi -dmenu -p 'Open With: '"@,
    {
        Config { enable_selector: false, selector: "rofi -dmenu -p 'Open With: '".to_owned() }
    }
}

impl Config {
    /// The selector command split into the program and its arguments, or
    /// None when the configured string is not a splittable, nonempty command
    /// line.
    pub fn split_selector(&self) -> (r: Option<(String, Vec<String>)>)
        ensures
            match r {
                Some(cw) => (shlex_split_of(self.selector@) matches Some(words) && words.len()
                    > 0 && cw.0@ == words[0] && strings_view(cw.1@) == words.skip(1)),
                None => shlex_split_of(self.selector@) is None || (shlex_split_of(self.selector@)
                    matches Some(words) && words.len() == 0),
            },
    {
        match shlex_split(self.selector.as_str()) {
            Some(mut words) => {
                if words.len() > 0 {
                    let ghost all = strings_view(words@);
                    let cmd = words.remove(0);
                    proof {
                        assert(strings_view(words@) =~= all.skip(1));
                    }
                    Some((cmd, words))
                } else {
                    None
                }
            },
            None => None,
        }
    }
}

/// Trailing ASCII whitespace stripped from `b`.
pub open spec fn trim_end_ws(b: Seq<u8>) -> Seq<u8>
    decreases b.len(),
{
    if b.len() > 0 && ws_byte(b[b.len() - 1]) {
        trim_end_ws(b.take(b.len() - 1))
    } else {
        b
    }
}

pub open spec fn ws_byte(c: u8) -> bool {
    c == 0x20 || c == 0x09 || c == 0x0a || c == 0x0d
}

/// The menu input: the options joined by newlines.
pub open spec fn join_options(v: Seq<Seq<u8>>) -> Seq<u8>
    decreases v.len(),
{
    if v.len() == 0 {
        Seq::<u8>::empty()
    } else if v.len() == 1 {
        v[0]
    } else {
        join_options(v.drop_last()) + seq![0x0au8] + v.last()
    }
}

/// The mathematical view of a vector of byte options.
pub open spec fn options_view(v: Seq<Vec<u8>>) -> Seq<Seq<u8>> {
    Seq::new(v.len(), |i: int| v[i]@)
}

/// Prepares what is written to the selector's input: one option per line.
pub fn selector_input(opts: &Vec<Vec<u8>>) -> (r: Vec<u8>)
    ensures
        r@ == join_options(options_view(opts@)),
{
    let mut out: Vec<u8> = Vec::new();
    let n = opts.len();
    let mut i: usize = 0;
    proof {
        assert(options_view(opts@).take(0) =~= Seq::<Seq<u8>>::empty());
        assert(out@ =~= Seq::<u8>::empty());
    }
    while i < n
        invariant
            n == opts.len(),
            i <= n,
            out@ == join_options(options_view(opts@).take(i as int)),
        decreases n - i,
    {
        let ghost ov = options_view(opts@);
        if i > 0 {
            out.push(0x0a);
        }
        let m = opts[i].len();
        let mut j: usize = 0;
        let ghost mid = out@;
        while j < m
            invariant
                m == opts@[i as int].len(),
                i < opts.len(),
                j <= m,
                out@ =~= mid + opts@[i as int]@.take(j as int),
            decreases m - j,
        {
            out.push(opts[i][j]);
            j = j + 1;
        }
        proof {
            assert(opts@[i as int]@.take(m as int) =~= opts@[i as int]@);
            let t1 = ov.take(i as int + 1);
            assert(t1.drop_last() =~= ov.take(i as int));
            assert(t1.last() == ov[i as int]);
            if i == 0 {
                assert(out@ =~= join_options(t1));
            } else {
                assert(out@ =~= join_options(ov.take(i as int)) + seq![0x0au8]
                    + ov[i as int]);
            }
        }
        i = i + 1;
    }
    proof {
        assert(options_view(opts@).take(n as int) =~= options_view(opts@));
    }
    out
}

/// Interprets what the selector printed: trailing whitespace is discarded,
/// and an empty answer means the user cancelled.
pub fn interpret_selection(raw: &Vec<u8>) -> (r: Result<Vec<u8>, Error>)
    ensures
        match r {
            Ok(choice) => trim_end_ws(raw@).len() > 0 && choice@ == trim_end_ws(raw@),
            Err(e) => trim_end_ws(raw@).len() == 0 && (e matches Error::Cancelled),
        },
{
    let mut end = raw.len();
    let mut stop = false;
    proof {
        assert(raw@.take(raw.len() as int) =~= raw@);
    }
    while end > 0 && !stop
        invariant
            end <= raw.len(),
            trim_end_ws(raw@) == trim_end_ws(raw@.take(end as int)),
            stop ==> end > 0 && !ws_byte(raw@[end - 1]),
        decreases end * 2 + (if stop {
            0int
        } else {
            1int
        }),
    {
        let c = raw[end - 1];
        if c == 0x20 || c == 0x09 || c == 0x0a || c == 0x0d {
            proof {
                let t = raw@.take(end as int);
                assert(t[t.len() - 1] == raw@[end - 1]);
                assert(t.take(t.len() - 1) =~= raw@.take(end as int - 1));
            }
            end = end - 1;
        } else {
            stop = true;
        }
    }
    proof {
        let t = raw@.take(end as int);
        if end > 0 {
            assert(stop);
            assert(t[t.len() - 1] == raw@[end - 1]);
            assert(!ws_byte(t[t.len() - 1]));
        }
        assert(trim_end_ws(t) == t);
    }
    if end == 0 {
        proof {
            assert(raw@.take(0).len() == 0);
        }
        Err(Error::Cancelled)
    } else {
        let choice = crate::codec::copy_range(raw, 0, end);
        proof {
            assert(raw@.subrange(0, end as int) =~= raw@.take(end as int));
        }
        Ok(choice)
    }
}

} // verus!
