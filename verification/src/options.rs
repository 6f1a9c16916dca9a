//! Command-line options of the compiler extraction adapter.
use crate::text::{byte_texts, bytes_of, insert_sorted, strictly_sorted, text_bytes, text_is};
use vstd::prelude::*;

verus! {

/// The flags read so far, as text.
pub struct FlagState {
    pub trusted: bool,
    pub root: Option<Seq<char>>,
    pub source: Option<Seq<char>>,
    pub output: Option<Seq<char>>,
    pub crate_name: Seq<char>,
    pub edition: Seq<char>,
    pub panic_strategy: Seq<char>,
    pub cfg: Seq<Seq<char>>,
}

/// The flags before any argument is read.
pub open spec fn initial_flags() -> FlagState {
    FlagState {
        trusted: false,
        root: None,
        source: None,
        output: None,
        crate_name: "atlas_input"@,
        edition: "2021"@,
        panic_strategy: "unwind"@,
        cfg: Seq::empty(),
    }
}

/// Reads the arguments from position `i` on: `--trusted-local` alone, every other flag
/// with the value after it; a repeated flag overrides, `--cfg` accumulates up to 256 values.
pub open spec fn scan_flags(args: Seq<Seq<char>>, i: int, st: FlagState) -> Result<FlagState, Seq<char>>
    decreases args.len() - i,
{
    if i < 0 || i >= args.len() {
        Ok(st)
    } else {
        let flag = args[i];
        if flag == "--trusted-local"@ {
            scan_flags(args, i + 1, FlagState { trusted: true, ..st })
        } else if i + 1 >= args.len() {
            Err("option requires a value"@)
        } else {
            let value = args[i + 1];
            if flag == "--root"@ {
                scan_flags(args, i + 2, FlagState { root: Some(value), ..st })
            } else if flag == "--source"@ {
                scan_flags(args, i + 2, FlagState { source: Some(value), ..st })
            } else if flag == "--output"@ {
                scan_flags(args, i + 2, FlagState { output: Some(value), ..st })
            } else if flag == "--crate-name"@ {
                scan_flags(args, i + 2, FlagState { crate_name: value, ..st })
            } else if flag == "--edition"@ {
                scan_flags(args, i + 2, FlagState { edition: value, ..st })
            } else if flag == "--panic"@ {
                scan_flags(args, i + 2, FlagState { panic_strategy: value, ..st })
            } else if flag == "--cfg"@ && st.cfg.len() < 256 {
                scan_flags(args, i + 2, FlagState { cfg: st.cfg.push(value), ..st })
            } else {
                Err("unsupported option: "@ + flag)
            }
        }
    }
}

/// Whether a character may appear in a crate name.
pub open spec fn crate_name_char(c: char) -> bool {
    ('a' <= c && c <= 'z') || ('A' <= c && c <= 'Z') || ('0' <= c && c <= '9') || c == '_'
}

/// Why the flags are refused, in the order the checks are made, or `None`.
pub open spec fn flags_fault(st: FlagState) -> Option<Seq<char>> {
    if !st.trusted {
        Some("compiler extraction requires explicit --trusted-local"@)
    } else if !(st.edition == "2015"@ || st.edition == "2018"@ || st.edition == "2021"@ || st.edition
        == "2024"@) {
        Some("unsupported edition"@)
    } else if !(st.panic_strategy == "unwind"@ || st.panic_strategy == "abort"@) {
        Some("unsupported panic strategy"@)
    } else if st.crate_name.len() == 0 || exists|k: int|
        0 <= k < st.crate_name.len() && !crate_name_char(#[trigger] st.crate_name[k]) {
        Some("invalid crate name"@)
    } else if st.crate_name.len() > 128 || exists|k: int|
        0 <= k < st.cfg.len() && vstd::utf8::encode_utf8(#[trigger] st.cfg[k]).len() > 4096 {
        Some("option budget exceeded"@)
    } else if st.root is None {
        Some("--root is required"@)
    } else if st.source is None {
        Some("--source is required"@)
    } else if st.output is None {
        Some("--output is required"@)
    } else {
        None
    }
}

/// What parsing the arguments gives: the flags, or the first complaint.
pub open spec fn parsed(args: Seq<Seq<char>>) -> Result<FlagState, Seq<char>> {
    match scan_flags(args, 0, initial_flags()) {
        Err(m) => Err(m),
        Ok(st) => match flags_fault(st) {
            Some(m) => Err(m),
            None => Ok(st),
        },
    }
}

/// The texts of a list of strings.
pub open spec fn views(v: Seq<String>) -> Seq<Seq<char>> {
    v.map_values(|s: String| s@)
}

/// Validated options of one extraction. The paths are as given: the caller resolves them
/// against the file system and requires them.
pub struct Options {
    pub root: Option<String>,
    pub source: Option<String>,
    pub output: Option<String>,
    pub crate_name: String,
    pub edition: String,
    pub panic_strategy: String,
    pub cfg: Vec<String>,
}

/// The text of an optional string.
pub open spec fn opt_view(o: Option<String>) -> Option<Seq<char>> {
    match o {
        Some(s) => Some(s@),
        None => None,
    }
}

/// Whether `o` holds the flags `st`, its configuration values sorted and without repeats.
pub open spec fn options_hold(o: Options, st: FlagState) -> bool {
    &&& opt_view(o.root) == st.root
    &&& opt_view(o.source) == st.source
    &&& opt_view(o.output) == st.output
    &&& o.crate_name@ == st.crate_name
    &&& o.edition@ == st.edition
    &&& o.panic_strategy@ == st.panic_strategy
    &&& strictly_sorted(o.cfg@)
    &&& byte_texts(o.cfg@).to_set() == st.cfg.map_values(|v: Seq<char>| vstd::utf8::encode_utf8(v)).to_set()
}

/// The flags held by the scan's variables.
pub open spec fn flags_of(
    trusted: bool,
    root: Option<String>,
    source: Option<String>,
    output: Option<String>,
    crate_name: String,
    edition: String,
    panic_strategy: String,
    cfg: Seq<String>,
) -> FlagState {
    FlagState {
        trusted,
        root: opt_view(root),
        source: opt_view(source),
        output: opt_view(output),
        crate_name: crate_name@,
        edition: edition@,
        panic_strategy: panic_strategy@,
        cfg: views(cfg),
    }
}

fn complaint(prefix: &str, rest: &str) -> (r: String)
    ensures
        r@ == prefix@ + rest@,
{
    let mut text = String::new();
    text.append(prefix);
    text.append(rest);
    text
}

/// Whether every character of a text may appear in a crate name (and it is not empty).
fn valid_crate_name(name: &str) -> (r: bool)
    ensures
        r == (name@.len() > 0 && forall|k: int| 0 <= k < name@.len() ==> crate_name_char(#[trigger] name@[k])),
{
    let n = name.unicode_len();
    if n == 0 {
        return false;
    }
    let mut i: usize = 0;
    while i < n
        invariant
            n == name@.len(),
            i <= n,
            forall|k: int| 0 <= k < i ==> crate_name_char(#[trigger] name@[k]),
        decreases n - i,
    {
        let c = name.get_char(i);
        if !(('a' <= c && c <= 'z') || ('A' <= c && c <= 'Z') || ('0' <= c && c <= '9') || c == '_') {
            return false;
        }
        i += 1;
    }
    true
}

impl Options {
    /// Parses the adapter's arguments: `--trusted-local` (required), `--root`, `--source`,
    /// `--output` (each required), `--crate-name`, `--edition` (2015, 2018, 2021 or 2024),
    /// `--panic` (`unwind` or `abort`) and up to 256 `--cfg` values; refuses anything else
    /// with the first complaint. Configuration values come out sorted, without repeats.
    pub fn parse(args: Vec<String>) -> (r: Result<Options, String>)
        ensures
            match parsed(views(args@)) {
                Err(m) => r matches Err(text) && text@ == m,
                Ok(st) => r matches Ok(o) && options_hold(o, st),
            },
    {
        let ghost a = views(args@);
        let mut trusted = false;
        let mut root: Option<String> = None;
        let mut source: Option<String> = None;
        let mut output: Option<String> = None;
        let mut crate_name = "atlas_input".to_string();
        let mut edition = "2021".to_string();
        let mut panic_strategy = "unwind".to_string();
        let mut cfg: Vec<String> = Vec::new();
        proof {
            assert(views(cfg@) =~= Seq::<Seq<char>>::empty());
            assert(flags_of(trusted, root, source, output, crate_name, edition, panic_strategy, cfg@) == initial_flags());
        }
        let mut i: usize = 0;
        while i < args.len()
            invariant
                a == views(args@),
                i <= args@.len(),
                cfg@.len() <= 256,
                scan_flags(a, 0, initial_flags()) == scan_flags(
                    a,
                    i as int,
                    flags_of(trusted, root, source, output, crate_name, edition, panic_strategy, cfg@),
                ),
            decreases args.len() - i,
        {
            let flag = &args[i];
            proof {
                assert(a[i as int] == flag@);
            }
            if text_is(flag.as_str(), "--trusted-local") {
                trusted = true;
                i += 1;
                continue;
            }
            if i + 1 >= args.len() {
                return Err("option requires a value".to_string());
            }
            let value = args[i + 1].clone();
            proof {
                assert(a[i + 1] == value@);
            }
            if text_is(flag.as_str(), "--root") {
                root = Some(value);
            } else if text_is(flag.as_str(), "--source") {
                source = Some(value);
            } else if text_is(flag.as_str(), "--output") {
                output = Some(value);
            } else if text_is(flag.as_str(), "--crate-name") {
                crate_name = value;
            } else if text_is(flag.as_str(), "--edition") {
                edition = value;
            } else if text_is(flag.as_str(), "--panic") {
                panic_strategy = value;
            } else if text_is(flag.as_str(), "--cfg") && cfg.len() < 256 {
                let ghost before = cfg@;
                cfg.push(value);
                proof {
                    assert(views(cfg@) =~= views(before).push(value@));
                }
            } else {
                return Err(complaint("unsupported option: ", flag.as_str()));
            }
            i += 2;
        }
        let ghost st = flags_of(trusted, root, source, output, crate_name, edition, panic_strategy, cfg@);
        proof {
            assert(scan_flags(a, 0, initial_flags()) == Ok::<FlagState, Seq<char>>(st));
        }
        if !trusted {
            return Err("compiler extraction requires explicit --trusted-local".to_string());
        }
        let e = edition.as_str();
        if !(text_is(e, "2015") || text_is(e, "2018") || text_is(e, "2021") || text_is(e, "2024")) {
            return Err("unsupported edition".to_string());
        }
        let p = panic_strategy.as_str();
        if !(text_is(p, "unwind") || text_is(p, "abort")) {
            return Err("unsupported panic strategy".to_string());
        }
        if !valid_crate_name(crate_name.as_str()) {
            return Err("invalid crate name".to_string());
        }
        let mut oversized = crate_name.as_str().unicode_len() > 128;
        let mut k: usize = 0;
        while k < cfg.len()
            invariant
                k <= cfg@.len(),
                oversized <==> (crate_name@.len() > 128 || exists|k2: int|
                    0 <= k2 < k && vstd::utf8::encode_utf8(#[trigger] views(cfg@)[k2]).len() > 4096),
            decreases cfg.len() - k,
        {
            let long = bytes_of(&cfg[k]).len() > 4096;
            proof {
                assert(views(cfg@)[k as int] == cfg@[k as int]@);
            }
            if long {
                oversized = true;
            }
            k += 1;
        }
        if oversized {
            return Err("option budget exceeded".to_string());
        }
        if root.is_none() {
            return Err("--root is required".to_string());
        }
        if source.is_none() {
            return Err("--source is required".to_string());
        }
        if output.is_none() {
            return Err("--output is required".to_string());
        }
        let mut sorted: Vec<String> = Vec::new();
        let mut m: usize = 0;
        while m < cfg.len()
            invariant
                m <= cfg@.len(),
                strictly_sorted(sorted@),
                byte_texts(sorted@).to_set() == views(cfg@).take(m as int).map_values(|v: Seq<char>| vstd::utf8::encode_utf8(v)).to_set(),
            decreases cfg.len() - m,
        {
            insert_sorted(&mut sorted, cfg[m].clone());
            proof {
                let t = views(cfg@).take(m + 1).map_values(|v: Seq<char>| vstd::utf8::encode_utf8(v));
                let t0 = views(cfg@).take(m as int).map_values(|v: Seq<char>| vstd::utf8::encode_utf8(v));
                assert(t =~= t0.push(text_bytes(cfg@[m as int])));
                t0.lemma_push_to_set_commute(text_bytes(cfg@[m as int]));
            }
            m += 1;
        }
        proof {
            assert(views(cfg@).take(m as int) =~= views(cfg@));
        }
        Ok(Options { root, source, output, crate_name, edition, panic_strategy, cfg: sorted })
    }
}

} // verus!
