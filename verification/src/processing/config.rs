//! What the processing is asked for.

use crate::bits;
use crate::text;
use vstd::prelude::*;

verus! {

/// A low-pass filter.
#[derive(Debug, Clone, Copy, PartialEq, Eq, Structural)]
pub enum FilterKind {
    NoFilter,
    Butterworth,
    /// There is no design for this one: it filters nothing.
    Bessel,
    RcCascade,
}

/// An ASCII letter in lower case; any other character as it is.
pub open spec fn lower_char(c: char) -> char {
    if 'A' <= c <= 'Z' {
        (c as u32 + 32) as char
    } else {
        c
    }
}

/// A text with its ASCII letters in lower case.
pub open spec fn lower(s: Seq<char>) -> Seq<char> {
    s.map_values(|c: char| lower_char(c))
}

/// The filter of that name, whatever the case of its letters.
pub open spec fn kind_named(s: Seq<char>) -> FilterKind {
    let name = lower(s);
    if name == "butterworth"@ || name == "butter"@ {
        FilterKind::Butterworth
    } else if name == "bessel"@ {
        FilterKind::Bessel
    } else if name == "rc_cascade"@ || name == "rc"@ {
        FilterKind::RcCascade
    } else {
        FilterKind::NoFilter
    }
}

fn lowercase(s: &str) -> (r: String)
    ensures
        r@ == lower(s@),
{
    let mut out: String = String::new();
    for c in it: s.chars()
        invariant
            it.seq() == s@,
            out@ == lower(s@).take(it.index()),
    {
        let l: char = if 'A' <= c && c <= 'Z' {
            (c as u8 + 32) as char
        } else {
            c
        };
        assert(l == lower_char(c));
        out.push(l);
        assert(out@ =~= lower(s@).take(it.index() + 1));
    }
    assert(out@ =~= lower(s@));
    out
}

impl FilterKind {
    /// The filter of that name; none where no filter has it.
    pub fn from_str(s: &str) -> (r: Self)
        ensures
            r == kind_named(s@),
    {
        let name: String = lowercase(s);
        let n: &str = name.as_str();
        if text::same_text(n, "butterworth") || text::same_text(n, "butter") {
            FilterKind::Butterworth
        } else if text::same_text(n, "bessel") {
            FilterKind::Bessel
        } else if text::same_text(n, "rc_cascade") || text::same_text(n, "rc") {
            FilterKind::RcCascade
        } else {
            FilterKind::NoFilter
        }
    }
}

/// What the processing is asked for. The numbers are doubles, held as their
/// bits.
#[derive(Debug, Clone, Copy, PartialEq, Eq, Structural)]
pub struct ProcessingConfig {
    /// Cut-off of the low-pass filter in hertz.
    pub lp_freq: u64,
    /// Length of the window in seconds.
    pub pkpk_time: u64,
    /// Outputs per second.
    pub pkpk_fs: u64,
    pub filter_kind: FilterKind,
}

/// The bits of 5.0, 120.0 and 1.0.
pub const DEFAULT_LP_FREQ: u64 = 0x4014_0000_0000_0000;

pub const DEFAULT_PKPK_TIME: u64 = 0x405E_0000_0000_0000;

pub const DEFAULT_PKPK_FS: u64 = 0x3FF0_0000_0000_0000;

/// A setting, or its default where it is missing.
pub open spec fn setting(given: Option<u64>, default: u64) -> u64 {
    match given {
        Some(v) => v,
        None => default,
    }
}

/// The processing that the given settings ask for. Missing ones have their
/// defaults; the default filter is the Butterworth filter.
pub fn parse_config(
    lp_freq: Option<u64>,
    pkpk_time: Option<u64>,
    pkpk_fs: Option<u64>,
    filter_kind: Option<&str>,
) -> (r: ProcessingConfig)
    ensures
        r.lp_freq == setting(lp_freq, DEFAULT_LP_FREQ),
        r.pkpk_time == setting(pkpk_time, DEFAULT_PKPK_TIME),
        r.pkpk_fs == setting(pkpk_fs, DEFAULT_PKPK_FS),
        r.filter_kind == match filter_kind {
            Some(s) => kind_named(s@),
            None => FilterKind::Butterworth,
        },
{
    ProcessingConfig {
        lp_freq: match lp_freq {
            Some(v) => v,
            None => DEFAULT_LP_FREQ,
        },
        pkpk_time: match pkpk_time {
            Some(v) => v,
            None => DEFAULT_PKPK_TIME,
        },
        pkpk_fs: match pkpk_fs {
            Some(v) => v,
            None => DEFAULT_PKPK_FS,
        },
        filter_kind: match filter_kind {
            Some(s) => FilterKind::from_str(s),
            None => FilterKind::Butterworth,
        },
    }
}

/// What is to be done to the samples before the windows slide over them.
#[derive(Debug, Clone, Copy, PartialEq, Eq, Structural)]
pub enum FilterRoute {
    /// Nothing.
    Pass,
    Butterworth,
    RcCascade,
}

/// Filters need a cut-off above zero and below half the sampling rate.
pub open spec fn route_of(cfg: ProcessingConfig, half_fs: u64) -> FilterRoute {
    if bits::num_lt(0, cfg.lp_freq) && bits::num_lt(cfg.lp_freq, half_fs) {
        match cfg.filter_kind {
            FilterKind::Butterworth => FilterRoute::Butterworth,
            FilterKind::RcCascade => FilterRoute::RcCascade,
            FilterKind::NoFilter => FilterRoute::Pass,
            FilterKind::Bessel => FilterRoute::Pass,
        }
    } else {
        FilterRoute::Pass
    }
}

/// Samples pass as they are without a filter, and just so where the filter has
/// no design and where the cut-off lies outside the band.
pub proof fn law_unfiltered(cfg: ProcessingConfig, half_fs: u64)
    ensures
        route_of(ProcessingConfig { filter_kind: FilterKind::NoFilter, ..cfg }, half_fs)
            == FilterRoute::Pass,
        route_of(ProcessingConfig { filter_kind: FilterKind::Bessel, ..cfg }, half_fs)
            == FilterRoute::Pass,
        !(bits::num_lt(0, cfg.lp_freq) && bits::num_lt(cfg.lp_freq, half_fs)) ==> route_of(
            cfg,
            half_fs,
        ) == FilterRoute::Pass,
        route_of(cfg, half_fs) == FilterRoute::Pass ==> !(bits::num_lt(0, cfg.lp_freq)
            && bits::num_lt(cfg.lp_freq, half_fs)) || cfg.filter_kind == FilterKind::NoFilter
            || cfg.filter_kind == FilterKind::Bessel,
{
}

impl ProcessingConfig {
    /// What is to be done to samples at this half sampling rate.
    pub fn filter_route(&self, half_fs: u64) -> (r: FilterRoute)
        ensures
            r == route_of(*self, half_fs),
    {
        if bits::below(0, self.lp_freq) && bits::below(self.lp_freq, half_fs) {
            match self.filter_kind {
                FilterKind::Butterworth => FilterRoute::Butterworth,
                FilterKind::RcCascade => FilterRoute::RcCascade,
                FilterKind::NoFilter => FilterRoute::Pass,
                FilterKind::Bessel => FilterRoute::Pass,
            }
        } else {
            FilterRoute::Pass
        }
    }
}

/// Whether a text spells a name in small letters, each in either case.
pub open spec fn spells(s: Seq<char>, name: Seq<char>) -> bool {
    s.len() == name.len() && forall|i: int| #![trigger s[i]]
        0 <= i < s.len() ==> s[i] == name[i] || ('A' <= s[i] <= 'Z' && s[i] as int + 32
            == name[i] as int)
}

proof fn lemma_spells(s: Seq<char>, name: Seq<char>)
    requires
        forall|i: int| #![trigger name[i]] 0 <= i < name.len() ==> !('A' <= name[i] <= 'Z'),
    ensures
        (lower(s) == name) == spells(s, name),
{
    if lower(s) == name {
        assert forall|i: int| #![trigger s[i]] 0 <= i < s.len() implies s[i] == name[i] || ('A'
            <= s[i] <= 'Z' && s[i] as int + 32 == name[i] as int) by {
            assert(lower(s)[i] == lower_char(s[i]));
        }
    }
    if spells(s, name) {
        assert forall|i: int| 0 <= i < s.len() implies #[trigger] lower(s)[i] == name[i] by {
            assert(lower(s)[i] == lower_char(s[i]));
            assert(!('A' <= name[i] <= 'Z'));
        }
        assert(lower(s) =~= name);
    }
}

/// A filter has its names in any case of their letters, and no others; every
/// other text asks for none.
pub proof fn law_names(s: Seq<char>)
    ensures
        kind_named(s) == FilterKind::Butterworth <==> spells(
            s,
            seq!['b', 'u', 't', 't', 'e', 'r', 'w', 'o', 'r', 't', 'h'],
        ) || spells(s, seq!['b', 'u', 't', 't', 'e', 'r']),
        kind_named(s) == FilterKind::Bessel <==> spells(s, seq!['b', 'e', 's', 's', 'e', 'l']),
        kind_named(s) == FilterKind::RcCascade <==> spells(
            s,
            seq!['r', 'c', '_', 'c', 'a', 's', 'c', 'a', 'd', 'e'],
        ) || spells(s, seq!['r', 'c']),
{
    reveal_strlit("butterworth");
    reveal_strlit("butter");
    reveal_strlit("bessel");
    reveal_strlit("rc_cascade");
    reveal_strlit("rc");
    assert("butterworth"@ =~= seq!['b', 'u', 't', 't', 'e', 'r', 'w', 'o', 'r', 't', 'h']);
    assert("butter"@ =~= seq!['b', 'u', 't', 't', 'e', 'r']);
    assert("bessel"@ =~= seq!['b', 'e', 's', 's', 'e', 'l']);
    assert("rc_cascade"@ =~= seq!['r', 'c', '_', 'c', 'a', 's', 'c', 'a', 'd', 'e']);
    assert("rc"@ =~= seq!['r', 'c']);
    lemma_spells(s, "butterworth"@);
    lemma_spells(s, "butter"@);
    lemma_spells(s, "bessel"@);
    lemma_spells(s, "rc_cascade"@);
    lemma_spells(s, "rc"@);
    assert("bessel"@[1] == 'e' && "butter"@[1] == 'u' && "butterworth"@[1] == 'u');
    assert("rc"@[0] == 'r' && "rc_cascade"@[0] == 'r' && "bessel"@[0] == 'b' && "butter"@[0]
        == 'b' && "butterworth"@[0] == 'b');
}

/// A setting that is given stands, whatever it is; only a missing one has its
/// default.
pub proof fn law_setting(v: u64, default: u64)
    ensures
        setting(Some(v), default) == v,
        setting(None, default) == default,
{
}

/// Inside the band each filter that has a design is taken; outside it, and
/// where a number is a NaN, none is.
pub proof fn law_route(cfg: ProcessingConfig, half_fs: u64)
    ensures
        ({
            let inside = !bits::no_number(cfg.lp_freq) && !bits::no_number(half_fs)
                && bits::value_of(cfg.lp_freq) > 0 && bits::value_of(cfg.lp_freq)
                < bits::value_of(half_fs);
            &&& route_of(cfg, half_fs) == FilterRoute::Butterworth <==> inside && cfg.filter_kind
                == FilterKind::Butterworth
            &&& route_of(cfg, half_fs) == FilterRoute::RcCascade <==> inside && cfg.filter_kind
                == FilterKind::RcCascade
        }),
{
    bits::law_order_of_values(0, cfg.lp_freq);
    bits::law_order_of_values(cfg.lp_freq, half_fs);
    bits::law_zero();
}

} // verus!
