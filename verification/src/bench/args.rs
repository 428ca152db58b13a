//! The command line of the benchmark.
//!
//! Fractional numbers are checked, and kept as text.

use crate::bench::text::{behind_digits, check_fraction, is_fraction, pair_of, parse_signed, parse_unsigned, same_text, signed_of, split_pair, unsigned_of};
use crate::fractal::fractal_type::FractalType;
use vstd::prelude::*;

verus! {

/// What renders the frames.
#[derive(Clone, Copy, Debug, PartialEq, Eq, Structural)]
pub enum Backend {
    Cpu,
    Wgpu,
    Hybrid,
}

/// The settings that are not text or lists.
#[derive(Clone, Copy, Debug)]
pub struct Settings {
    pub width: u32,
    pub height: u32,
    pub max_iter: u32,
    pub runs: usize,
    pub threads: usize,
    pub backend: Backend,
    pub cap_slack: u32,
    pub compare_pan_recycle: Option<(i32, i32)>,
    pub perturbation: bool,
    pub use_sa: bool,
    pub compare_perturb: bool,
    pub perturb_sweep: bool,
    pub compare_bulb_reject: bool,
    pub compare_neighbor_cap: bool,
    pub tile_check: bool,
    pub compare_multiref: bool,
    pub compare_rebase: bool,
    pub compare_dem_cull: bool,
    pub compare_ide: bool,
    pub heterogeneous: bool,
    pub scaling: bool,
    pub json: bool,
}

/// What was asked for on the command line.
pub struct Args {
    pub fractals: Vec<FractalType>,
    pub settings: Settings,
    pub zoom: String,
    pub center: (String, String),
    pub dem_k: String,
}

/// What [`Args`] holds.
#[verifier::ext_equal]
pub struct ArgsModel {
    pub fractals: Seq<FractalType>,
    pub settings: Settings,
    pub zoom: Seq<char>,
    pub center: (Seq<char>, Seq<char>),
    pub dem_k: Seq<char>,
}

impl View for Args {
    type V = ArgsModel;

    open spec fn view(&self) -> ArgsModel {
        ArgsModel {
            fractals: self.fractals@,
            settings: self.settings,
            zoom: self.zoom@,
            center: (self.center.0@, self.center.1@),
            dem_k: self.dem_k@,
        }
    }
}

/// What is wrong with a command line.
pub enum ArgError {
    /// The last flag wants a value behind it.
    MissingValue(String),
    UnknownFractal(String),
    UnknownBackend(String),
    /// The text is no number, or one that does not fit.
    BadNumber(String),
    /// The text is no zoom.
    BadZoom(String),
    /// The text is no pair of coordinates.
    BadCenter(String),
    /// The text is no pair of distances.
    BadPan(String),
    UnknownFlag(String),
}

/// What [`ArgError`] holds.
pub enum ArgFault {
    MissingValue(Seq<char>),
    UnknownFractal(Seq<char>),
    UnknownBackend(Seq<char>),
    BadNumber(Seq<char>),
    BadZoom(Seq<char>),
    BadCenter(Seq<char>),
    BadPan(Seq<char>),
    UnknownFlag(Seq<char>),
}

impl View for ArgError {
    type V = ArgFault;

    open spec fn view(&self) -> ArgFault {
        match self {
            ArgError::MissingValue(s) => ArgFault::MissingValue(s@),
            ArgError::UnknownFractal(s) => ArgFault::UnknownFractal(s@),
            ArgError::UnknownBackend(s) => ArgFault::UnknownBackend(s@),
            ArgError::BadNumber(s) => ArgFault::BadNumber(s@),
            ArgError::BadZoom(s) => ArgFault::BadZoom(s@),
            ArgError::BadCenter(s) => ArgFault::BadCenter(s@),
            ArgError::BadPan(s) => ArgFault::BadPan(s@),
            ArgError::UnknownFlag(s) => ArgFault::UnknownFlag(s@),
        }
    }
}

/// Every fractal.
pub open spec fn all_fractals() -> Seq<FractalType> {
    seq![FractalType::Nova, FractalType::Newton, FractalType::Mandelbrot, FractalType::Julia]
}

/// The settings where nothing is asked for.
pub open spec fn default_settings() -> Settings {
    Settings {
        width: 1920,
        height: 1080,
        max_iter: 1000,
        runs: 5,
        threads: 0,
        backend: Backend::Cpu,
        cap_slack: 16,
        compare_pan_recycle: None,
        perturbation: false,
        use_sa: false,
        compare_perturb: false,
        perturb_sweep: false,
        compare_bulb_reject: false,
        compare_neighbor_cap: false,
        tile_check: false,
        compare_multiref: false,
        compare_rebase: false,
        compare_dem_cull: false,
        compare_ide: false,
        heterogeneous: false,
        scaling: false,
        json: false,
    }
}

/// What is meant where nothing is asked for.
pub open spec fn default_model() -> ArgsModel {
    ArgsModel {
        fractals: all_fractals(),
        settings: default_settings(),
        zoom: "1.0"@,
        center: ("-0.5"@, "0.0"@),
        dem_k: "4.0"@,
    }
}

impl Default for Args {
    fn default() -> (r: Args)
        ensures
            r@ == default_model(),
    {
        let fractals: Vec<FractalType> = vec![
            FractalType::Nova,
            FractalType::Newton,
            FractalType::Mandelbrot,
            FractalType::Julia,
        ];
        let settings = Settings {
            width: 1920,
            height: 1080,
            max_iter: 1000,
            runs: 5,
            threads: 0,
            backend: Backend::Cpu,
            cap_slack: 16,
            compare_pan_recycle: None,
            perturbation: false,
            use_sa: false,
            compare_perturb: false,
            perturb_sweep: false,
            compare_bulb_reject: false,
            compare_neighbor_cap: false,
            tile_check: false,
            compare_multiref: false,
            compare_rebase: false,
            compare_dem_cull: false,
            compare_ide: false,
            heterogeneous: false,
            scaling: false,
            json: false,
        };
        assert(fractals@ =~= all_fractals());
        let center: (String, String) = ("-0.5".to_owned(), "0.0".to_owned());
        Args { fractals, settings, zoom: "1.0".to_owned(), center, dem_k: "4.0".to_owned() }
    }
}

/// The fractals that a name stands for.
pub open spec fn fractals_named(name: Seq<char>) -> Option<Seq<FractalType>> {
    if name == "mandelbrot"@ {
        Some(seq![FractalType::Mandelbrot])
    } else if name == "julia"@ {
        Some(seq![FractalType::Julia])
    } else if name == "newton"@ {
        Some(seq![FractalType::Newton])
    } else if name == "nova"@ {
        Some(seq![FractalType::Nova])
    } else if name == "all"@ {
        Some(all_fractals())
    } else {
        None
    }
}

/// The backend that a name stands for.
pub open spec fn backend_named(name: Seq<char>) -> Option<Backend> {
    if name == "cpu"@ {
        Some(Backend::Cpu)
    } else if name == "wgpu"@ {
        Some(Backend::Wgpu)
    } else if name == "hybrid"@ {
        Some(Backend::Hybrid)
    } else {
        None
    }
}

fn parse_fractals(name: &str) -> (r: Option<Vec<FractalType>>)
    ensures
        match r {
            Some(v) => fractals_named(name@) == Some(v@),
            None => fractals_named(name@) is None,
        },
{
    let v: Vec<FractalType> = if same_text(name, "mandelbrot") {
        vec![FractalType::Mandelbrot]
    } else if same_text(name, "julia") {
        vec![FractalType::Julia]
    } else if same_text(name, "newton") {
        vec![FractalType::Newton]
    } else if same_text(name, "nova") {
        vec![FractalType::Nova]
    } else if same_text(name, "all") {
        vec![
            FractalType::Nova,
            FractalType::Newton,
            FractalType::Mandelbrot,
            FractalType::Julia,
        ]
    } else {
        return None;
    };
    assert(v@ =~= fractals_named(name@)->0);
    Some(v)
}

fn parse_backend(name: &str) -> (r: Option<Backend>)
    ensures
        r == backend_named(name@),
{
    if same_text(name, "cpu") {
        Some(Backend::Cpu)
    } else if same_text(name, "wgpu") {
        Some(Backend::Wgpu)
    } else if same_text(name, "hybrid") {
        Some(Backend::Hybrid)
    } else {
        None
    }
}

/// A flag that stands alone.
pub open spec fn switched(s: Settings, flag: Seq<char>) -> Option<Settings> {
    if flag == "--perturbation"@ {
        Some(Settings { perturbation: true, ..s })
    } else if flag == "--sa"@ {
        Some(Settings { use_sa: true, ..s })
    } else if flag == "--compare-perturb"@ {
        Some(Settings { compare_perturb: true, ..s })
    } else if flag == "--perturb-sweep"@ {
        Some(Settings { perturb_sweep: true, ..s })
    } else if flag == "--compare-bulb-reject"@ {
        Some(Settings { compare_bulb_reject: true, ..s })
    } else if flag == "--compare-neighbor-cap"@ {
        Some(Settings { compare_neighbor_cap: true, ..s })
    } else if flag == "--tile-check"@ {
        Some(Settings { tile_check: true, ..s })
    } else if flag == "--compare-multiref"@ {
        Some(Settings { compare_multiref: true, ..s })
    } else if flag == "--compare-rebase"@ {
        Some(Settings { compare_rebase: true, ..s })
    } else if flag == "--compare-dem-cull"@ {
        Some(Settings { compare_dem_cull: true, ..s })
    } else if flag == "--compare-ide"@ {
        Some(Settings { compare_ide: true, ..s })
    } else if flag == "--heterogeneous"@ {
        Some(Settings { heterogeneous: true, ..s })
    } else if flag == "--scaling"@ {
        Some(Settings { scaling: true, ..s })
    } else if flag == "--json"@ {
        Some(Settings { json: true, ..s })
    } else {
        None
    }
}

/// Switches on what a flag that stands alone asks for.
fn switch_on(s: Settings, flag: &str) -> (r: Option<Settings>)
    ensures
        r == switched(s, flag@),
{
    if same_text(flag, "--perturbation") {
        Some(Settings { perturbation: true, ..s })
    } else if same_text(flag, "--sa") {
        Some(Settings { use_sa: true, ..s })
    } else if same_text(flag, "--compare-perturb") {
        Some(Settings { compare_perturb: true, ..s })
    } else if same_text(flag, "--perturb-sweep") {
        Some(Settings { perturb_sweep: true, ..s })
    } else if same_text(flag, "--compare-bulb-reject") {
        Some(Settings { compare_bulb_reject: true, ..s })
    } else if same_text(flag, "--compare-neighbor-cap") {
        Some(Settings { compare_neighbor_cap: true, ..s })
    } else if same_text(flag, "--tile-check") {
        Some(Settings { tile_check: true, ..s })
    } else if same_text(flag, "--compare-multiref") {
        Some(Settings { compare_multiref: true, ..s })
    } else if same_text(flag, "--compare-rebase") {
        Some(Settings { compare_rebase: true, ..s })
    } else if same_text(flag, "--compare-dem-cull") {
        Some(Settings { compare_dem_cull: true, ..s })
    } else if same_text(flag, "--compare-ide") {
        Some(Settings { compare_ide: true, ..s })
    } else if same_text(flag, "--heterogeneous") {
        Some(Settings { heterogeneous: true, ..s })
    } else if same_text(flag, "--scaling") {
        Some(Settings { scaling: true, ..s })
    } else if same_text(flag, "--json") {
        Some(Settings { json: true, ..s })
    } else {
        None
    }
}

/// The largest number that a flag with a whole number behind it takes.
pub open spec fn number_limit(flag: Seq<char>) -> Option<int> {
    if flag == "--width"@ || flag == "--height"@ || flag == "--iters"@ || flag == "--cap-slack"@ {
        Some(0xffff_ffff)
    } else if flag == "--runs"@ || flag == "--threads"@ {
        Some(usize::MAX as int)
    } else {
        None
    }
}

/// The settings once a flag with a whole number behind it is taken in.
pub open spec fn numbered(s: Settings, flag: Seq<char>, n: int) -> Settings {
    if flag == "--width"@ {
        Settings { width: n as u32, ..s }
    } else if flag == "--height"@ {
        Settings { height: n as u32, ..s }
    } else if flag == "--iters"@ {
        Settings { max_iter: n as u32, ..s }
    } else if flag == "--cap-slack"@ {
        Settings { cap_slack: n as u32, ..s }
    } else if flag == "--runs"@ {
        Settings { runs: n as usize, ..s }
    } else {
        Settings { threads: n as usize, ..s }
    }
}

/// The largest number that a flag with a whole number behind it takes.
fn limit_of(flag: &str) -> (r: Option<u64>)
    ensures
        match r {
            Some(m) => number_limit(flag@) == Some(m as int),
            None => number_limit(flag@) is None,
        },
{
    if same_text(flag, "--width") || same_text(flag, "--height") || same_text(flag, "--iters")
        || same_text(flag, "--cap-slack") {
        Some(0xffff_ffff)
    } else if same_text(flag, "--runs") || same_text(flag, "--threads") {
        Some(usize::MAX as u64)
    } else {
        None
    }
}

/// Takes in a flag with a whole number behind it.
fn set_number(s: Settings, flag: &str, n: u64) -> (r: Settings)
    requires
        number_limit(flag@) matches Some(max) && n <= max,
    ensures
        r == numbered(s, flag@, n as int),
{
    if same_text(flag, "--width") {
        Settings { width: n as u32, ..s }
    } else if same_text(flag, "--height") {
        Settings { height: n as u32, ..s }
    } else if same_text(flag, "--iters") {
        Settings { max_iter: n as u32, ..s }
    } else if same_text(flag, "--cap-slack") {
        Settings { cap_slack: n as u32, ..s }
    } else if same_text(flag, "--runs") {
        Settings { runs: n as usize, ..s }
    } else {
        Settings { threads: n as usize, ..s }
    }
}

/// The flag wants a value behind it.
pub open spec fn wants_value(flag: Seq<char>) -> bool {
    ||| flag == "--fractal"@
    ||| flag == "--backend"@
    ||| flag == "--zoom"@
    ||| flag == "--center"@
    ||| flag == "--dem-k"@
    ||| flag == "--compare-pan-recycle"@
    ||| number_limit(flag) is Some
}

/// What is asked for once a flag with the value behind it is taken in.
pub open spec fn valued(a: ArgsModel, flag: Seq<char>, value: Seq<char>) -> Result<ArgsModel, ArgFault> {
    if flag == "--fractal"@ {
        match fractals_named(value) {
            Some(f) => Ok(ArgsModel { fractals: f, ..a }),
            None => Err(ArgFault::UnknownFractal(value)),
        }
    } else if flag == "--backend"@ {
        match backend_named(value) {
            Some(b) => Ok(ArgsModel { settings: Settings { backend: b, ..a.settings }, ..a }),
            None => Err(ArgFault::UnknownBackend(value)),
        }
    } else if flag == "--zoom"@ {
        if is_fraction(value) {
            Ok(ArgsModel { zoom: value, ..a })
        } else {
            Err(ArgFault::BadZoom(value))
        }
    } else if flag == "--dem-k"@ {
        if is_fraction(value) {
            Ok(ArgsModel { dem_k: value, ..a })
        } else {
            Err(ArgFault::BadNumber(value))
        }
    } else if flag == "--center"@ {
        match pair_of(value) {
            Some(p) => if is_fraction(p.0) && is_fraction(p.1) {
                Ok(ArgsModel { center: p, ..a })
            } else {
                Err(ArgFault::BadNumber(value))
            },
            None => Err(ArgFault::BadCenter(value)),
        }
    } else if flag == "--compare-pan-recycle"@ {
        match pair_of(value) {
            Some(p) => match (signed_of(p.0), signed_of(p.1)) {
                (Some(dx), Some(dy)) => Ok(
                    ArgsModel {
                        settings: Settings {
                            compare_pan_recycle: Some((dx as i32, dy as i32)),
                            ..a.settings
                        },
                        ..a
                    },
                ),
                _ => Err(ArgFault::BadNumber(value)),
            },
            None => Err(ArgFault::BadPan(value)),
        }
    } else {
        match unsigned_of(value, number_limit(flag)->0) {
            Some(n) => Ok(ArgsModel { settings: numbered(a.settings, flag, n), ..a }),
            None => Err(ArgFault::BadNumber(value)),
        }
    }
}

/// What the words from place `i` on add to what is asked for so far.
pub open spec fn parsed_from(words: Seq<Seq<char>>, i: int, a: ArgsModel) -> Result<ArgsModel, ArgFault>
    decreases words.len() - i,
{
    if i >= words.len() {
        Ok(a)
    } else {
        let flag = words[i];
        if wants_value(flag) {
            if i + 1 >= words.len() {
                Err(ArgFault::MissingValue(flag))
            } else {
                match valued(a, flag, words[i + 1]) {
                    Ok(b) => parsed_from(words, i + 2, b),
                    Err(e) => Err(e),
                }
            }
        } else {
            match switched(a.settings, flag) {
                Some(s) => parsed_from(words, i + 1, ArgsModel { settings: s, ..a }),
                None => Err(ArgFault::UnknownFlag(flag)),
            }
        }
    }
}

/// The characters of each word.
pub open spec fn texts(words: Seq<String>) -> Seq<Seq<char>> {
    Seq::new(words.len(), |i: int| words[i]@)
}

/// Whether the flag wants a value behind it.
fn has_value(flag: &str) -> (r: bool)
    ensures
        r == wants_value(flag@),
{
    same_text(flag, "--fractal") || same_text(flag, "--backend") || same_text(flag, "--zoom")
        || same_text(flag, "--center") || same_text(flag, "--dem-k") || same_text(
        flag,
        "--compare-pan-recycle",
    ) || limit_of(flag).is_some()
}

/// Takes in a flag with the value behind it.
fn take_value(args: Args, flag: &str, value: &str) -> (r: Result<Args, ArgError>)
    requires
        wants_value(flag@),
    ensures
        match r {
            Ok(b) => valued(args@, flag@, value@) == Ok::<ArgsModel, ArgFault>(b@),
            Err(e) => valued(args@, flag@, value@) == Err::<ArgsModel, ArgFault>(e@),
        },
{
    if same_text(flag, "--fractal") {
        match parse_fractals(value) {
            Some(f) => Ok(Args { fractals: f, ..args }),
            None => Err(ArgError::UnknownFractal(value.to_owned())),
        }
    } else if same_text(flag, "--backend") {
        match parse_backend(value) {
            Some(b) => Ok(Args { settings: Settings { backend: b, ..args.settings }, ..args }),
            None => Err(ArgError::UnknownBackend(value.to_owned())),
        }
    } else if same_text(flag, "--zoom") {
        if check_fraction(value) {
            Ok(Args { zoom: value.to_owned(), ..args })
        } else {
            Err(ArgError::BadZoom(value.to_owned()))
        }
    } else if same_text(flag, "--dem-k") {
        if check_fraction(value) {
            Ok(Args { dem_k: value.to_owned(), ..args })
        } else {
            Err(ArgError::BadNumber(value.to_owned()))
        }
    } else if same_text(flag, "--center") {
        match split_pair(value) {
            Some(p) => if check_fraction(p.0.as_str()) && check_fraction(p.1.as_str()) {
                Ok(Args { center: p, ..args })
            } else {
                Err(ArgError::BadNumber(value.to_owned()))
            },
            None => Err(ArgError::BadCenter(value.to_owned())),
        }
    } else if same_text(flag, "--compare-pan-recycle") {
        match split_pair(value) {
            Some(p) => {
                match (parse_signed(p.0.as_str()), parse_signed(p.1.as_str())) {
                    (Some(dx), Some(dy)) => {
                        let settings = Settings {
                            compare_pan_recycle: Some((dx, dy)),
                            ..args.settings
                        };
                        Ok(Args { settings, ..args })
                    },
                    _ => Err(ArgError::BadNumber(value.to_owned())),
                }
            },
            None => Err(ArgError::BadPan(value.to_owned())),
        }
    } else {
        match limit_of(flag) {
            Some(max) => match parse_unsigned(value, max) {
                Some(n) => {
                    proof {
                        crate::bench::text::lemma_unsigned_at_most(value@, max as int);
                    }
                    let settings: Settings = set_number(args.settings, flag, n);
                    Ok(Args { settings, ..args })
                },
                None => Err(ArgError::BadNumber(value.to_owned())),
            },
            None => Err(ArgError::UnknownFlag(flag.to_owned())),
        }
    }
}

/// Reads the words of a command line, without the name of the program.
pub fn parse_args(raw: &Vec<String>) -> (r: Result<Args, ArgError>)
    ensures
        match r {
            Ok(a) => parsed_from(texts(raw@), 0, default_model()) == Ok::<ArgsModel, ArgFault>(a@),
            Err(e) => parsed_from(texts(raw@), 0, default_model()) == Err::<ArgsModel, ArgFault>(
                e@,
            ),
        },
{
    let mut a: Args = Args::default();
    let ghost words = texts(raw@);
    let mut i: usize = 0;
    while i < raw.len()
        invariant
            words == texts(raw@),
            i <= raw@.len(),
            parsed_from(words, 0, default_model()) == parsed_from(words, i as int, a@),
        decreases raw@.len() - i,
    {
        let flag: &str = raw[i].as_str();
        assert(words[i as int] == flag@);
        if has_value(flag) {
            if raw.len() - i < 2 {
                return Err(ArgError::MissingValue(flag.to_owned()));
            }
            let value: &str = raw[i + 1].as_str();
            assert(words[i + 1] == value@);
            match take_value(a, flag, value) {
                Ok(b) => {
                    a = b;
                },
                Err(e) => {
                    return Err(e);
                },
            }
            i = i + 2;
        } else {
            match switch_on(a.settings, flag) {
                Some(s) => {
                    a.settings = s;
                },
                None => {
                    return Err(ArgError::UnknownFlag(flag.to_owned()));
                },
            }
            i = i + 1;
        }
    }
    Ok(a)
}

proof fn lemma_parsed_behind(a: Seq<Seq<char>>, b: Seq<Seq<char>>, i: int, m: ArgsModel)
    requires
        0 <= i,
    ensures
        parsed_from(a + b, a.len() + i, m) == parsed_from(b, i, m),
    decreases b.len() - i,
{
    let all = a + b;
    let at = a.len() + i;
    if i < b.len() {
        assert(all[at] == b[i]);
        if wants_value(b[i]) {
            if i + 1 < b.len() {
                assert(all[at + 1] == b[i + 1]);
                if let Ok(n) = valued(m, b[i], b[i + 1]) {
                    lemma_parsed_behind(a, b, i + 2, n);
                }
            }
        } else if let Some(s) = switched(m.settings, b[i]) {
            lemma_parsed_behind(a, b, i + 1, ArgsModel { settings: s, ..m });
        }
    }
}

/// Flags are taken in one after the other: where the first part of a command line
/// is accepted, the rest adds to what the first part asks for.
pub proof fn law_flags_are_taken_in_turn(a: Seq<Seq<char>>, b: Seq<Seq<char>>, i: int, m: ArgsModel)
    requires
        0 <= i <= a.len(),
        parsed_from(a, i, m) is Ok,
    ensures
        parsed_from(a + b, i, m) == parsed_from(b, 0, parsed_from(a, i, m)->Ok_0),
    decreases a.len() - i,
{
    let all = a + b;
    if i == a.len() {
        lemma_parsed_behind(a, b, 0, m);
    } else {
        assert(all[i] == a[i]);
        if wants_value(a[i]) {
            assert(all[i + 1] == a[i + 1]);
            law_flags_are_taken_in_turn(a, b, i + 2, valued(m, a[i], a[i + 1])->Ok_0);
        } else {
            let s = switched(m.settings, a[i])->0;
            law_flags_are_taken_in_turn(a, b, i + 1, ArgsModel { settings: s, ..m });
        }
    }
}

/// Each fractional number can be read.
pub open spec fn fractions_ok(a: ArgsModel) -> bool {
    is_fraction(a.zoom) && is_fraction(a.dem_k) && is_fraction(a.center.0) && is_fraction(
        a.center.1,
    )
}

proof fn lemma_fractions_stay_ok(words: Seq<Seq<char>>, i: int, a: ArgsModel)
    requires
        0 <= i,
        fractions_ok(a),
    ensures
        parsed_from(words, i, a) matches Ok(b) ==> fractions_ok(b),
    decreases words.len() - i,
{
    if i < words.len() {
        let flag = words[i];
        if wants_value(flag) {
            if i + 1 < words.len() {
                if let Ok(b) = valued(a, flag, words[i + 1]) {
                    lemma_fractions_stay_ok(words, i + 2, b);
                }
            }
        } else if let Some(s) = switched(a.settings, flag) {
            lemma_fractions_stay_ok(words, i + 1, ArgsModel { settings: s, ..a });
        }
    }
}

/// The fractional numbers of every command line that is accepted can be read.
pub proof fn law_accepted_fractions_can_be_read(words: Seq<Seq<char>>)
    ensures
        parsed_from(words, 0, default_model()) matches Ok(b) ==> fractions_ok(b),
{
    reveal_strlit("1.0");
    reveal_strlit("-0.5");
    reveal_strlit("0.0");
    reveal_strlit("4.0");
    reveal_with_fuel(behind_digits, 3);
    assert(fractions_ok(default_model()));
    lemma_fractions_stay_ok(words, 0, default_model());
}

/// What a run of the benchmark does.
#[derive(Clone, Copy, Debug, PartialEq, Eq, Structural)]
pub enum Mode {
    /// Compares the renderers of perturbation at several zooms.
    PerturbSweep,
    /// Checks the closed test for a part of the Mandelbrot set.
    BulbReject,
    /// Checks the limits that are taken from a neighbour.
    NeighborCap,
    /// Checks the moving of a frame.
    PanRecycle { dx: i32, dy: i32 },
    /// Checks several reference orbits.
    Multiref,
    /// Checks the culling of rectangles.
    DemCull,
    /// Checks the cheaper kernel for points inside the set.
    Ide,
    /// Checks the taking up of an orbit from its start.
    Rebase,
    /// Checks the order along a curve.
    TileCheck,
    /// Checks the sharing of a frame.
    Heterogeneous,
    /// Compares the renderers of perturbation at one zoom.
    ComparePerturb,
    /// Measures with several numbers of threads.
    Scaling,
    /// Measures.
    Measure,
}

/// What a run does: of all that is asked for, the first in this order.
pub open spec fn mode_of(s: Settings) -> Mode {
    if s.perturb_sweep {
        Mode::PerturbSweep
    } else if s.compare_bulb_reject {
        Mode::BulbReject
    } else if s.compare_neighbor_cap {
        Mode::NeighborCap
    } else if let Some((dx, dy)) = s.compare_pan_recycle {
        Mode::PanRecycle { dx, dy }
    } else if s.compare_multiref {
        Mode::Multiref
    } else if s.compare_dem_cull {
        Mode::DemCull
    } else if s.compare_ide {
        Mode::Ide
    } else if s.compare_rebase {
        Mode::Rebase
    } else if s.tile_check {
        Mode::TileCheck
    } else if s.heterogeneous {
        Mode::Heterogeneous
    } else if s.compare_perturb {
        Mode::ComparePerturb
    } else if s.scaling {
        Mode::Scaling
    } else {
        Mode::Measure
    }
}

/// Chooses what a run does.
pub fn choose_mode(s: &Settings) -> (r: Mode)
    ensures
        r == mode_of(*s),
{
    if s.perturb_sweep {
        return Mode::PerturbSweep;
    }
    if s.compare_bulb_reject {
        return Mode::BulbReject;
    }
    if s.compare_neighbor_cap {
        return Mode::NeighborCap;
    }
    if let Some((dx, dy)) = s.compare_pan_recycle {
        return Mode::PanRecycle { dx, dy };
    }
    if s.compare_multiref {
        return Mode::Multiref;
    }
    if s.compare_dem_cull {
        return Mode::DemCull;
    }
    if s.compare_ide {
        return Mode::Ide;
    }
    if s.compare_rebase {
        return Mode::Rebase;
    }
    if s.tile_check {
        return Mode::TileCheck;
    }
    if s.heterogeneous {
        return Mode::Heterogeneous;
    }
    if s.compare_perturb {
        return Mode::ComparePerturb;
    }
    if s.scaling {
        Mode::Scaling
    } else {
        Mode::Measure
    }
}

/// What is measured of one fractal.
#[derive(Clone, Copy, Debug, PartialEq, Eq, Structural)]
pub enum Job {
    Cpu,
    Wgpu,
    /// The CPU alone, then the CPU and a device together.
    Hybrid,
    /// Nothing: perturbation runs on the CPU only.
    Skip,
}

/// What is measured of one fractal.
pub fn choose_job(backend: Backend, perturbation: bool) -> (r: Job)
    ensures
        r == (match backend {
            Backend::Cpu => Job::Cpu,
            Backend::Wgpu => if perturbation {
                Job::Skip
            } else {
                Job::Wgpu
            },
            Backend::Hybrid => if perturbation {
                Job::Skip
            } else {
                Job::Hybrid
            },
        }),
{
    match backend {
        Backend::Cpu => Job::Cpu,
        Backend::Wgpu => if perturbation {
            Job::Skip
        } else {
            Job::Wgpu
        },
        Backend::Hybrid => if perturbation {
            Job::Skip
        } else {
            Job::Hybrid
        },
    }
}

/// The word asks for a short measurement in place of the window.
pub open spec fn asks_headless(word: Seq<char>) -> bool {
    word == "--headless"@ || word == "--bench"@
}

/// Whether a command line asks for a short measurement in place of the window.
pub fn is_headless(raw: &Vec<String>) -> (r: bool)
    ensures
        r == exists|i: int| 0 <= i < raw@.len() && asks_headless(#[trigger] raw@[i]@),
{
    let mut i: usize = 0;
    while i < raw.len()
        invariant
            i <= raw@.len(),
            forall|k: int| 0 <= k < i ==> !asks_headless(#[trigger] raw@[k]@),
        decreases raw@.len() - i,
    {
        let word: &str = raw[i].as_str();
        if same_text(word, "--headless") || same_text(word, "--bench") {
            assert(asks_headless(raw@[i as int]@));
            return true;
        }
        i = i + 1;
    }
    false
}

proof fn lemma_flags_differ()
    ensures
        "--perturbation"@.len() == 14,
        "--sa"@.len() == 4,
        "--compare-perturb"@.len() == 17,
        "--perturb-sweep"@.len() == 15,
        "--perturb-sweep"@[2] == 'p',
        "--compare-bulb-reject"@.len() == 21,
        "--compare-bulb-reject"@[10] == 'b',
        "--compare-neighbor-cap"@.len() == 22,
        "--tile-check"@.len() == 12,
        "--compare-multiref"@.len() == 18,
        "--compare-multiref"@[10] == 'm',
        "--compare-rebase"@.len() == 16,
        "--compare-dem-cull"@.len() == 18,
        "--compare-dem-cull"@[10] == 'd',
        "--compare-ide"@.len() == 13,
        "--heterogeneous"@.len() == 15,
        "--heterogeneous"@[2] == 'h',
        "--scaling"@.len() == 9,
        "--scaling"@[2] == 's',
        "--json"@.len() == 6,
        "--json"@[2] == 'j',
        "--width"@.len() == 7,
        "--width"@[2] == 'w',
        "--height"@.len() == 8,
        "--height"@[2] == 'h',
        "--iters"@.len() == 7,
        "--iters"@[2] == 'i',
        "--cap-slack"@.len() == 11,
        "--runs"@.len() == 6,
        "--runs"@[2] == 'r',
        "--threads"@.len() == 9,
        "--threads"@[2] == 't',
        "--fractal"@.len() == 9,
        "--fractal"@[2] == 'f',
        "--backend"@.len() == 9,
        "--backend"@[2] == 'b',
        "--zoom"@.len() == 6,
        "--zoom"@[2] == 'z',
        "--center"@.len() == 8,
        "--center"@[2] == 'c',
        "--dem-k"@.len() == 7,
        "--dem-k"@[2] == 'd',
        "--compare-pan-recycle"@.len() == 21,
        "--compare-pan-recycle"@[10] == 'p',
{
    reveal_strlit("--perturbation");
    reveal_strlit("--sa");
    reveal_strlit("--compare-perturb");
    reveal_strlit("--perturb-sweep");
    reveal_strlit("--compare-bulb-reject");
    reveal_strlit("--compare-neighbor-cap");
    reveal_strlit("--tile-check");
    reveal_strlit("--compare-multiref");
    reveal_strlit("--compare-rebase");
    reveal_strlit("--compare-dem-cull");
    reveal_strlit("--compare-ide");
    reveal_strlit("--heterogeneous");
    reveal_strlit("--scaling");
    reveal_strlit("--json");
    reveal_strlit("--width");
    reveal_strlit("--height");
    reveal_strlit("--iters");
    reveal_strlit("--cap-slack");
    reveal_strlit("--runs");
    reveal_strlit("--threads");
    reveal_strlit("--fractal");
    reveal_strlit("--backend");
    reveal_strlit("--zoom");
    reveal_strlit("--center");
    reveal_strlit("--dem-k");
    reveal_strlit("--compare-pan-recycle");
}

proof fn lemma_names_differ()
    ensures
        "mandelbrot"@.len() == 10,
        "julia"@.len() == 5,
        "newton"@.len() == 6,
        "newton"@[0] == 'n',
        "nova"@.len() == 4,
        "nova"@[0] == 'n',
        "all"@.len() == 3,
        "all"@[0] == 'a',
        "cpu"@.len() == 3,
        "cpu"@[0] == 'c',
        "wgpu"@.len() == 4,
        "wgpu"@[0] == 'w',
        "hybrid"@.len() == 6,
        "hybrid"@[0] == 'h',
{
    reveal_strlit("mandelbrot");
    reveal_strlit("julia");
    reveal_strlit("newton");
    reveal_strlit("nova");
    reveal_strlit("all");
    reveal_strlit("cpu");
    reveal_strlit("wgpu");
    reveal_strlit("hybrid");
}

/// What each flag that stands alone switches on: one setting of its own, and no other.
/// No other flag stands alone.
pub proof fn law_each_switch_turns_on_one_setting(s: Settings, flag: Seq<char>)
    ensures
        switched(s, "--perturbation"@) == Some(Settings { perturbation: true, ..s }),
        switched(s, "--sa"@) == Some(Settings { use_sa: true, ..s }),
        switched(s, "--compare-perturb"@) == Some(Settings { compare_perturb: true, ..s }),
        switched(s, "--perturb-sweep"@) == Some(Settings { perturb_sweep: true, ..s }),
        switched(s, "--compare-bulb-reject"@) == Some(Settings { compare_bulb_reject: true, ..s }),
        switched(s, "--compare-neighbor-cap"@) == Some(Settings { compare_neighbor_cap: true, ..s }),
        switched(s, "--tile-check"@) == Some(Settings { tile_check: true, ..s }),
        switched(s, "--compare-multiref"@) == Some(Settings { compare_multiref: true, ..s }),
        switched(s, "--compare-rebase"@) == Some(Settings { compare_rebase: true, ..s }),
        switched(s, "--compare-dem-cull"@) == Some(Settings { compare_dem_cull: true, ..s }),
        switched(s, "--compare-ide"@) == Some(Settings { compare_ide: true, ..s }),
        switched(s, "--heterogeneous"@) == Some(Settings { heterogeneous: true, ..s }),
        switched(s, "--scaling"@) == Some(Settings { scaling: true, ..s }),
        switched(s, "--json"@) == Some(Settings { json: true, ..s }),
        switched(s, flag) is Some ==> {
            ||| flag == "--perturbation"@
            ||| flag == "--sa"@
            ||| flag == "--compare-perturb"@
            ||| flag == "--perturb-sweep"@
            ||| flag == "--compare-bulb-reject"@
            ||| flag == "--compare-neighbor-cap"@
            ||| flag == "--tile-check"@
            ||| flag == "--compare-multiref"@
            ||| flag == "--compare-rebase"@
            ||| flag == "--compare-dem-cull"@
            ||| flag == "--compare-ide"@
            ||| flag == "--heterogeneous"@
            ||| flag == "--scaling"@
            ||| flag == "--json"@
        },
{
    lemma_flags_differ();
}

/// What each flag with a whole number behind it sets, and the largest number that it
/// takes. The other flags that want a value want something else.
pub proof fn law_each_number_sets_one_setting(s: Settings, n: int, flag: Seq<char>)
    ensures
        number_limit("--width"@) == Some(0xffff_ffffint),
        numbered(s, "--width"@, n) == (Settings { width: n as u32, ..s }),
        number_limit("--height"@) == Some(0xffff_ffffint),
        numbered(s, "--height"@, n) == (Settings { height: n as u32, ..s }),
        number_limit("--iters"@) == Some(0xffff_ffffint),
        numbered(s, "--iters"@, n) == (Settings { max_iter: n as u32, ..s }),
        number_limit("--cap-slack"@) == Some(0xffff_ffffint),
        numbered(s, "--cap-slack"@, n) == (Settings { cap_slack: n as u32, ..s }),
        number_limit("--runs"@) == Some(usize::MAX as int),
        numbered(s, "--runs"@, n) == (Settings { runs: n as usize, ..s }),
        number_limit("--threads"@) == Some(usize::MAX as int),
        numbered(s, "--threads"@, n) == (Settings { threads: n as usize, ..s }),
        number_limit(flag) is Some ==> {
            ||| flag == "--width"@
            ||| flag == "--height"@
            ||| flag == "--iters"@
            ||| flag == "--cap-slack"@
            ||| flag == "--runs"@
            ||| flag == "--threads"@
        },
        wants_value(flag) <==> {
            ||| number_limit(flag) is Some
            ||| flag == "--fractal"@
            ||| flag == "--backend"@
            ||| flag == "--zoom"@
            ||| flag == "--center"@
            ||| flag == "--dem-k"@
            ||| flag == "--compare-pan-recycle"@
        },
{
    lemma_flags_differ();
}

/// No flag both stands alone and wants a value.
pub proof fn law_switches_want_no_value(s: Settings, flag: Seq<char>)
    requires
        switched(s, flag) is Some,
    ensures
        !wants_value(flag),
{
    lemma_flags_differ();
}

/// The names of the fractals and of the backends.
pub proof fn law_names_stand_for_one_thing(name: Seq<char>)
    ensures
        fractals_named("mandelbrot"@) == Some(seq![FractalType::Mandelbrot]),
        fractals_named("julia"@) == Some(seq![FractalType::Julia]),
        fractals_named("newton"@) == Some(seq![FractalType::Newton]),
        fractals_named("nova"@) == Some(seq![FractalType::Nova]),
        fractals_named("all"@) == Some(
            seq![
                FractalType::Nova,
                FractalType::Newton,
                FractalType::Mandelbrot,
                FractalType::Julia,
            ],
        ),
        fractals_named(name) is Some ==> {
            ||| name == "mandelbrot"@
            ||| name == "julia"@
            ||| name == "newton"@
            ||| name == "nova"@
            ||| name == "all"@
        },
        backend_named(name) == Some(Backend::Cpu) <==> name == "cpu"@,
        backend_named(name) == Some(Backend::Wgpu) <==> name == "wgpu"@,
        backend_named(name) == Some(Backend::Hybrid) <==> name == "hybrid"@,
{
    lemma_names_differ();
}

/// What each flag with a value does: it sets what it is for where the value can be read,
/// leaves everything else as it is, and names the value as wrong where it cannot.
pub proof fn law_each_value_sets_one_thing(a: ArgsModel, v: Seq<char>, flag: Seq<char>)
    ensures
        valued(a, "--fractal"@, v) == (match fractals_named(v) {
            Some(f) => Ok::<ArgsModel, ArgFault>(ArgsModel { fractals: f, ..a }),
            None => Err(ArgFault::UnknownFractal(v)),
        }),
        valued(a, "--backend"@, v) == (match backend_named(v) {
            Some(b) => Ok::<ArgsModel, ArgFault>(
                ArgsModel { settings: Settings { backend: b, ..a.settings }, ..a },
            ),
            None => Err(ArgFault::UnknownBackend(v)),
        }),
        is_fraction(v) ==> valued(a, "--zoom"@, v) == Ok::<ArgsModel, ArgFault>(
            ArgsModel { zoom: v, ..a },
        ),
        !is_fraction(v) ==> valued(a, "--zoom"@, v) == Err::<ArgsModel, ArgFault>(
            ArgFault::BadZoom(v),
        ),
        is_fraction(v) ==> valued(a, "--dem-k"@, v) == Ok::<ArgsModel, ArgFault>(
            ArgsModel { dem_k: v, ..a },
        ),
        !is_fraction(v) ==> valued(a, "--dem-k"@, v) == Err::<ArgsModel, ArgFault>(
            ArgFault::BadNumber(v),
        ),
        pair_of(v) is None ==> {
            &&& valued(a, "--center"@, v) == Err::<ArgsModel, ArgFault>(ArgFault::BadCenter(v))
            &&& valued(a, "--compare-pan-recycle"@, v) == Err::<ArgsModel, ArgFault>(
                ArgFault::BadPan(v),
            )
        },
        pair_of(v) matches Some(p) ==> {
            &&& is_fraction(p.0) && is_fraction(p.1) ==> valued(a, "--center"@, v) == Ok::<
                ArgsModel,
                ArgFault,
            >(ArgsModel { center: p, ..a })
            &&& !(is_fraction(p.0) && is_fraction(p.1)) ==> valued(a, "--center"@, v) == Err::<
                ArgsModel,
                ArgFault,
            >(ArgFault::BadNumber(v))
            &&& signed_of(p.0) is None || signed_of(p.1) is None ==> valued(
                a,
                "--compare-pan-recycle"@,
                v,
            ) == Err::<ArgsModel, ArgFault>(ArgFault::BadNumber(v))
            &&& signed_of(p.0) is Some && signed_of(p.1) is Some ==> valued(
                a,
                "--compare-pan-recycle"@,
                v,
            ) == Ok::<ArgsModel, ArgFault>(
                ArgsModel {
                    settings: Settings {
                        compare_pan_recycle: Some(
                            (signed_of(p.0)->0 as i32, signed_of(p.1)->0 as i32),
                        ),
                        ..a.settings
                    },
                    ..a
                },
            )
        },
        number_limit(flag) matches Some(max) ==> {
            &&& unsigned_of(v, max) matches Some(n) ==> valued(a, flag, v) == Ok::<
                ArgsModel,
                ArgFault,
            >(ArgsModel { settings: numbered(a.settings, flag, n), ..a })
            &&& unsigned_of(v, max) is None ==> valued(a, flag, v) == Err::<ArgsModel, ArgFault>(
                ArgFault::BadNumber(v),
            )
        },
{
    lemma_flags_differ();
}

/// How a command line is read, flag by flag. Nothing asks for nothing more. A flag that
/// stands alone takes one word, and one with a value two, and then the rest is read. The
/// first thing that is wrong ends the reading: an unknown flag, a value that is wrong, or
/// the end of the line where a value is wanted.
pub proof fn law_command_lines_are_read_flag_by_flag(
    flag: Seq<char>,
    v: Seq<char>,
    rest: Seq<Seq<char>>,
    a: ArgsModel,
)
    ensures
        parsed_from(Seq::empty(), 0, a) == Ok::<ArgsModel, ArgFault>(a),
        !wants_value(flag) ==> (match switched(a.settings, flag) {
            Some(s) => parsed_from(seq![flag] + rest, 0, a) == parsed_from(
                rest,
                0,
                ArgsModel { settings: s, ..a },
            ),
            None => parsed_from(seq![flag] + rest, 0, a) == Err::<ArgsModel, ArgFault>(
                ArgFault::UnknownFlag(flag),
            ),
        }),
        wants_value(flag) ==> parsed_from(seq![flag], 0, a) == Err::<ArgsModel, ArgFault>(
            ArgFault::MissingValue(flag),
        ),
        wants_value(flag) ==> (match valued(a, flag, v) {
            Ok(b) => parsed_from(seq![flag, v] + rest, 0, a) == parsed_from(rest, 0, b),
            Err(e) => parsed_from(seq![flag, v] + rest, 0, a) == Err::<ArgsModel, ArgFault>(e),
        }),
{
    let one = seq![flag] + rest;
    let two = seq![flag, v] + rest;
    assert(one[0] == flag);
    assert(two[0] == flag && two[1] == v);
    if !wants_value(flag) {
        if let Some(s) = switched(a.settings, flag) {
            lemma_parsed_behind(seq![flag], rest, 0, ArgsModel { settings: s, ..a });
        }
    } else if let Ok(b) = valued(a, flag, v) {
        lemma_parsed_behind(seq![flag, v], rest, 0, b);
    }
}

/// What is meant where nothing is asked for: every fractal, 1920 by 1080 pixels, 1000
/// iterations, 5 runs, as many threads as there are, the CPU, and no check.
pub proof fn law_defaults_measure_everything_on_the_cpu(m: ArgsModel)
    requires
        m == default_model(),
    ensures
        m.fractals == seq![
            FractalType::Nova,
            FractalType::Newton,
            FractalType::Mandelbrot,
            FractalType::Julia,
        ],
        m.settings.width == 1920 && m.settings.height == 1080,
        m.settings.max_iter == 1000 && m.settings.runs == 5 && m.settings.threads == 0,
        m.settings.backend == Backend::Cpu && m.settings.cap_slack == 16,
        mode_of(m.settings) is Measure,
        !m.settings.perturbation && !m.settings.use_sa && !m.settings.json,
        m.zoom == "1.0"@ && m.dem_k == "4.0"@,
        m.center == ("-0.5"@, "0.0"@),
{
}

/// What a run does: each check is made where it is asked for and nothing that comes
/// before it is, in the order of the clauses below, and with none a measurement.
pub proof fn law_first_check_that_is_asked_for_is_made(s: Settings)
    ensures
        mode_of(s) is PerturbSweep <==> s.perturb_sweep,
        mode_of(s) is BulbReject <==> s.compare_bulb_reject && !s.perturb_sweep,
        mode_of(s) is NeighborCap <==> s.compare_neighbor_cap && !s.perturb_sweep && !s.compare_bulb_reject,
        mode_of(s) is PanRecycle <==> s.compare_pan_recycle is Some && !s.perturb_sweep && !s.compare_bulb_reject && !s.compare_neighbor_cap,
        mode_of(s) is Multiref <==> s.compare_multiref && !s.perturb_sweep && !s.compare_bulb_reject && !s.compare_neighbor_cap && !(s.compare_pan_recycle is Some),
        mode_of(s) is DemCull <==> s.compare_dem_cull && !s.perturb_sweep && !s.compare_bulb_reject && !s.compare_neighbor_cap && !(s.compare_pan_recycle is Some) && !s.compare_multiref,
        mode_of(s) is Ide <==> s.compare_ide && !s.perturb_sweep && !s.compare_bulb_reject && !s.compare_neighbor_cap && !(s.compare_pan_recycle is Some) && !s.compare_multiref && !s.compare_dem_cull,
        mode_of(s) is Rebase <==> s.compare_rebase && !s.perturb_sweep && !s.compare_bulb_reject && !s.compare_neighbor_cap && !(s.compare_pan_recycle is Some) && !s.compare_multiref && !s.compare_dem_cull && !s.compare_ide,
        mode_of(s) is TileCheck <==> s.tile_check && !s.perturb_sweep && !s.compare_bulb_reject && !s.compare_neighbor_cap && !(s.compare_pan_recycle is Some) && !s.compare_multiref && !s.compare_dem_cull && !s.compare_ide && !s.compare_rebase,
        mode_of(s) is Heterogeneous <==> s.heterogeneous && !s.perturb_sweep && !s.compare_bulb_reject && !s.compare_neighbor_cap && !(s.compare_pan_recycle is Some) && !s.compare_multiref && !s.compare_dem_cull && !s.compare_ide && !s.compare_rebase && !s.tile_check,
        mode_of(s) is ComparePerturb <==> s.compare_perturb && !s.perturb_sweep && !s.compare_bulb_reject && !s.compare_neighbor_cap && !(s.compare_pan_recycle is Some) && !s.compare_multiref && !s.compare_dem_cull && !s.compare_ide && !s.compare_rebase && !s.tile_check && !s.heterogeneous,
        mode_of(s) is Scaling <==> s.scaling && !s.perturb_sweep && !s.compare_bulb_reject && !s.compare_neighbor_cap && !(s.compare_pan_recycle is Some) && !s.compare_multiref && !s.compare_dem_cull && !s.compare_ide && !s.compare_rebase && !s.tile_check && !s.heterogeneous && !s.compare_perturb,
        mode_of(s) matches Mode::PanRecycle { dx, dy } ==> s.compare_pan_recycle == Some((dx, dy)),
{
}

/// Two words ask for a short measurement, and no others.
pub proof fn law_two_words_ask_for_no_window(word: Seq<char>)
    ensures
        asks_headless(word) <==> word == "--headless"@ || word == "--bench"@,
{
}

/// The words of a command line are taken as they are.
pub proof fn law_words_are_taken_as_they_are(words: Seq<String>, i: int)
    requires
        0 <= i < words.len(),
    ensures
        texts(words).len() == words.len(),
        texts(words)[i] == words[i]@,
{
}

} // verus!
