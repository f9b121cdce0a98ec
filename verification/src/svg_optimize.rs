//! What the optimizer decides about a document, and the jobs of `oxvg` that it runs over it.
//!
//! The search for a precision compares renders in floating point and stands beside the command
//! line; it asks this module for the job list at each precision and for the passes over the
//! document.

use vstd::prelude::*;
use vstd::utf8::encode_utf8;

use oxvg_ast::parse::roxmltree::{parse_with_options, ParsingOptions};
use oxvg_ast::serialize::{Indent, Node as _, Options};
use oxvg_ast::visitor::Info;
use oxvg_optimiser::{
    CleanupNumericValues, ConvertPathData, ConvertShapeToPath, ConvertStyleToAttrs, ConvertTransform,
    Jobs, RemoveAttrs, RemoveDimensions, RemoveXlink,
};
use oxvg_path::geometry::Tolerance;

use crate::text::{local_name, local_part, str_eq};
use crate::xml::{is_tag, read_tokens, tokens_view, xml_read, TokenKind, TokenView, XmlError};

verus! {

/// Whether a tag's local name makes a document dynamic.
pub open spec fn is_dynamic_tag(t: TokenView) -> bool {
    is_tag(t) && (local_part(t.name) == "style"@ || local_part(t.name) == "script"@)
}

/// Whether a `<style>` or a `<script>` comes among the tokens from `i` on before the reader fails:
/// `None` when it fails first.
pub open spec fn dynamic_from(ts: Seq<TokenView>, failed: bool, i: int) -> Option<bool>
    decreases ts.len() - i,
{
    if i < 0 || i >= ts.len() {
        if failed {
            None
        } else {
            Some(false)
        }
    } else if is_dynamic_tag(ts[i]) {
        Some(true)
    } else {
        dynamic_from(ts, failed, i + 1)
    }
}

/// Whether `src` has a `<style>` or a `<script>`, read up to the first one; `None` when the reader
/// refuses the document before one.
pub open spec fn spec_is_dynamic(src: Seq<char>) -> Option<bool> {
    dynamic_from(xml_read(src).0, xml_read(src).1, 0)
}

/// Whether `src` has a `<style>` or a `<script>`, which decide what an element looks like in a way
/// that reading the attributes cannot follow.
///
/// A `style` attribute beats a rule of a stylesheet, and a presentation attribute loses to one, so
/// `convert_style_to_attrs` is unsafe here. A script names an element by its `id`, so the dead root
/// `id` stays as well.
pub fn is_dynamic(src: &str) -> (r: Result<bool, XmlError>)
    ensures
        match r {
            Ok(b) => spec_is_dynamic(src@) == Some(b),
            Err(_) => spec_is_dynamic(src@) is None,
        },
{
    let (ts, err) = read_tokens(src);
    let ghost tv = tokens_view(ts@);
    let mut i: usize = 0;
    while i < ts.len()
        invariant
            tv == tokens_view(ts@),
            xml_read(src@) == (tv, err is Some),
            i <= ts.len(),
            spec_is_dynamic(src@) == dynamic_from(tv, err is Some, i as int),
        decreases ts.len() - i,
    {
        let t = &ts[i];
        assert(tv[i as int] == t@);
        proof {
            crate::xml::lemma_token_named(src@, i as int);
        }
        if t.kind == TokenKind::Open || t.kind == TokenKind::Empty {
            let local = local_name(t.name.as_str());
            if str_eq(local.as_str(), "style") || str_eq(local.as_str(), "script") {
                return Ok(true);
            }
        }
        i += 1;
    }
    match err {
        Some(e) => Err(e),
        None => Ok(false),
    }
}

/// How many times the job list runs over one document.
///
/// The jobs run once each, in a fixed order, and the ones that read the numbers run before the ones
/// that round them. A merge that rounding makes possible therefore needs another run. Every test
/// file settles after the second run, and the cap stops a document that never settles.
pub const MAX_PASSES: usize = 3;

/// The attribute that `remove_attrs` removes: `xml:space`, on any element.
pub const REMOVED_ATTR: &'static str = "*|xml:space";

/// What separates the element from the attribute in [`REMOVED_ATTR`]. The default separator is
/// `:`, which a prefixed attribute name needs for itself.
pub const ATTR_SEPARATOR: &'static str = "|";

/// How the four jobs that round numbers are set for one precision.
#[derive(Clone, Copy, Debug, PartialEq, Eq, Structural)]
pub struct Rounding {
    /// `float_precision` of `cleanup_numeric_values`.
    pub numeric: u8,
    /// `float_precision` of `convert_shape_to_path`.
    pub shape: i32,
    /// The precision of the tolerance of `convert_path_data`.
    pub path: i32,
    /// `float_precision` of `convert_transform`.
    pub transform: i32,
    /// `transform_precision` of `convert_transform`.
    pub transform_precision: i32,
}

/// The settings of the job list: the default preset of `oxvg`, with these on top.
#[derive(Clone, Copy, Debug, PartialEq, Eq, Structural)]
pub struct JobSettings {
    /// Whether `remove_dimensions` drops the root width and height.
    pub remove_dimensions: bool,
    /// Whether `convert_style_to_attrs` runs.
    pub convert_style: bool,
    /// Whether `remove_xlink` runs, which writes `href` for `xlink:href`.
    pub remove_xlink: bool,
    /// How the jobs that round numbers are set, `None` for the defaults of `oxvg`.
    pub rounding: Option<Rounding>,
}

/// One number drives the four jobs that round numbers, and the rest of each job keeps its own
/// defaults.
pub open spec fn spec_rounding(p: i32) -> Rounding {
    Rounding {
        // Above 5 this aborts the whole run rather than skipping the job.
        numeric: (if p < 0 {
            0
        } else if p > 5 {
            5
        } else {
            p
        }) as u8,
        shape: p,
        // `positional` and `angular` are absolute distances, not digit counts, so they stay put.
        path: p,
        // 0 rounds to integers rather than turning rounding off, so the floor is 1.
        transform: if p < 1 {
            1
        } else {
            p
        },
        transform_precision: if p + 2 < 1 {
            1
        } else {
            (p + 2) as i32
        },
    }
}

/// The settings for a document: the root width and height go unless they are kept, styles become
/// attributes unless a stylesheet makes that unsafe, `xlink:href` always becomes `href`, and a
/// precision sets the rounding.
pub open spec fn spec_jobs(keep_dimensions: bool, precision: Option<i32>, dynamic: bool) -> JobSettings {
    JobSettings {
        remove_dimensions: !keep_dimensions,
        convert_style: !dynamic,
        remove_xlink: true,
        rounding: match precision {
            Some(p) => Some(spec_rounding(p)),
            None => None,
        },
    }
}

/// The default preset, plus the svgy settings.
///
/// A `precision` of `None` leaves every job at the default of oxvg. Otherwise one number drives the
/// four jobs that round numbers, and the rest of each job keeps its own defaults.
pub fn jobs(keep_dimensions: bool, precision: Option<i32>, dynamic: bool) -> (r: JobSettings)
    requires
        precision matches Some(p) ==> p <= i32::MAX - 2,
    ensures
        r == spec_jobs(keep_dimensions, precision, dynamic),
{
    let rounding = match precision {
        None => None,
        Some(p) => {
            let numeric: u8 = if p < 0 {
                0
            } else if p > 5 {
                5
            } else {
                p as u8
            };
            Some(
                Rounding {
                    numeric,
                    shape: p,
                    path: p,
                    transform: if p < 1 {
                        1
                    } else {
                        p
                    },
                    transform_precision: if p + 2 < 1 {
                        1
                    } else {
                        p + 2
                    },
                },
            )
        },
    };
    JobSettings {
        remove_dimensions: !keep_dimensions,
        convert_style: !dynamic,
        remove_xlink: true,
        rounding,
    }
}

#[verifier::external_type_specification]
#[verifier::external_body]
pub struct ExJobs(oxvg_optimiser::Jobs);

/// `oxvg_optimiser::Jobs::default()` with `remove_dimensions` set to
/// `RemoveDimensions(remove_dimensions)`, `remove_xlink` on when `remove_xlink` is,
/// `convert_style_to_attrs` on when `convert_style` is, and `remove_attrs` removing `removed` with `separator` between element and
/// attribute.
///
/// Nothing is claimed: a job list is opaque, and what it does is what [`run_jobs`] runs.
#[verifier::external_body]
fn base_jobs(remove_dimensions: bool, remove_xlink: bool, convert_style: bool, separator: &str, removed: &str) -> Jobs {
    Jobs {
        remove_dimensions: Some(RemoveDimensions(remove_dimensions)),
        remove_xlink: remove_xlink.then_some(RemoveXlink::default()),
        convert_style_to_attrs: convert_style.then_some(ConvertStyleToAttrs::default()),
        remove_attrs: Some(RemoveAttrs { elem_separator: separator.to_string(), attrs: vec![removed.to_string()], ..RemoveAttrs::default() }),
        ..Jobs::default()
    }
}

/// `jobs` with `cleanup_numeric_values`, `convert_shape_to_path`, `convert_path_data` and
/// `convert_transform` set to their defaults but for the numbers of `r`.
///
/// Nothing is claimed: a job list is opaque.
#[verifier::external_body]
fn rounded_jobs(jobs: Jobs, r: Rounding) -> Jobs {
    Jobs {
        cleanup_numeric_values: Some(CleanupNumericValues { float_precision: r.numeric, ..CleanupNumericValues::default() }),
        convert_shape_to_path: Some(ConvertShapeToPath { float_precision: r.shape, ..ConvertShapeToPath::default() }),
        convert_path_data: Some(ConvertPathData { tolerance: Tolerance { precision: r.path, ..Tolerance::default() }, ..ConvertPathData::default() }),
        convert_transform: Some(ConvertTransform { float_precision: r.transform, transform_precision: r.transform_precision, ..ConvertTransform::default() }),
        ..jobs
    }
}

/// The job list of the settings.
pub fn job_list(s: JobSettings) -> Jobs {
    let base = base_jobs(s.remove_dimensions, s.remove_xlink, s.convert_style, ATTR_SEPARATOR, REMOVED_ATTR);
    match s.rounding {
        Some(r) => rounded_jobs(base, r),
        None => base,
    }
}

/// Why `oxvg` could not optimize a document.
#[derive(Debug)]
pub struct OptimizeError {
    pub message: String,
}

/// `oxvg_ast::parse::roxmltree::parse_with_options` with `allow_dtd` as given, `Jobs::run` over the
/// document, then `serialize_with_options` with the given indentation; the error of any of the
/// three as its message.
///
/// Nothing is claimed of the text: several jobs collect names in hash sets, and whether their
/// output follows the order those are walked in is not shown here. The jobs and the parser hold a
/// few hundred `unwrap`, `expect` and `panic!` sites between them; that none of them can be
/// reached from a document the parser accepts is not shown either, so no input is ruled out, and
/// the optimization can panic wherever those jobs do.
#[verifier::external_body]
fn run_jobs(src: &str, jobs: &Jobs, allow_dtd: bool, indent: Indent) -> (r: Result<String, OptimizeError>) {
    let options = ParsingOptions { allow_dtd, ..ParsingOptions::default() };
    let parsed = parse_with_options(src, options, |dom, allocator| -> Result<String, String> {
        jobs.run(dom, &Info::new(allocator)).map_err(|e| e.to_string())?;
        dom.serialize_with_options(Options { indent, ..Options::default() }).map_err(|e| e.to_string())
    });
    match parsed {
        Ok(Ok(svg)) => Ok(svg),
        Ok(Err(message)) => Err(OptimizeError { message }),
        Err(e) => Err(OptimizeError { message: e.to_string() }),
    }
}

/// Whether the parser reads a DOCTYPE: it must, before `remove_doctype` can strip one.
pub const ALLOW_DTD: bool = true;

#[verifier::external_type_specification]
#[verifier::external_body]
pub struct ExIndent(oxvg_ast::serialize::Indent);

/// `Indent::Tabs` of the `oxvg` serializer.
#[verifier::external_body]
fn tab_indent() -> Indent {
    Indent::Tabs
}

/// Run the job list until it stops paying.
///
/// A run reads what the run before it wrote, so a rounded number can now merge with its neighbour.
/// A run that writes no fewer bytes is dropped: the fixed point is reached, or the jobs are trading a
/// shape for a longer one. The parser reads a DOCTYPE ([`ALLOW_DTD`]), and the text is written
/// indented with tabs. What comes back ends a chain of at most [`MAX_PASSES`] kept texts, each
/// shorter than the one before (see [`further_passes`]).
pub fn run_passes(src: &str, jobs: &Jobs) -> (r: Result<String, OptimizeError>)
    ensures
        r matches Ok(out) ==> exists|chain: Seq<Seq<char>>|
            kept_runs(chain) && #[trigger] chain.last() == out@,
{
    let first = run_jobs(src, jobs, ALLOW_DTD, tab_indent())?;
    further_passes(first, jobs)
}

/// One step of the runs: `next`, the text a run wrote over `best`, is kept when it is shorter in
/// bytes, and then the runs go on; otherwise `best` stays and they stop.
pub fn keep_pass(best: String, next: String) -> (r: (String, bool))
    ensures
        r.1 == (encode_utf8(next@).len() < encode_utf8(best@).len()),
        r.0@ == (if r.1 {
            next@
        } else {
            best@
        }),
{
    if next.as_str().as_bytes().len() < best.as_str().as_bytes().len() {
        (next, true)
    } else {
        (best, false)
    }
}

/// Whether `chain` is the texts the runs kept, from the first run's on: each one fewer bytes than
/// the one before it, and no more of them than [`MAX_PASSES`].
pub open spec fn kept_runs(chain: Seq<Seq<char>>) -> bool {
    &&& 1 <= chain.len() <= MAX_PASSES
    &&& forall|j: int|
        0 < j < chain.len() ==> encode_utf8(#[trigger] chain[j]).len() < encode_utf8(chain[j - 1]).len()
}

/// The runs of the job list after the first, over `first`, the text the first run wrote: each run
/// reads what the last kept one wrote, and [`keep_pass`] decides whether its text is kept and the
/// runs go on. There are [`MAX_PASSES`] runs at most, the first one included.
///
/// Whatever the runs write, the text that comes back is the last of a chain of kept texts that
/// starts at `first`, each shorter in bytes than the one before, and at most [`MAX_PASSES`] long.
pub fn further_passes(first: String, jobs: &Jobs) -> (r: Result<String, OptimizeError>)
    ensures
        r matches Ok(out) ==> out@ == first@ || encode_utf8(out@).len() < encode_utf8(first@).len(),
        r matches Ok(out) ==> exists|chain: Seq<Seq<char>>|
            kept_runs(chain) && chain[0] == first@ && #[trigger] chain.last() == out@,
{
    let ghost start = first@;
    let ghost mut chain: Seq<Seq<char>> = seq![first@];
    let mut best = first;
    let mut k: usize = 1;
    while k < MAX_PASSES
        invariant
            k <= MAX_PASSES,
            start == first@,
            best@ == start || encode_utf8(best@).len() < encode_utf8(start).len(),
            chain.len() == k,
            kept_runs(chain),
            chain[0] == start,
            chain.last() == best@,
        decreases MAX_PASSES - k,
    {
        let next = run_jobs(best.as_str(), jobs, ALLOW_DTD, tab_indent())?;
        let ghost before = best@;
        let (kept, shorter) = keep_pass(best, next);
        best = kept;
        if !shorter {
            return Ok(best);
        }
        proof {
            let old_chain = chain;
            chain = chain.push(best@);
            assert(chain[k as int - 1] == before);
            assert forall|j: int| 0 < j < chain.len() implies encode_utf8(#[trigger] chain[j]).len()
                < encode_utf8(chain[j - 1]).len() by {
                if j < k {
                    assert(chain[j] == old_chain[j] && chain[j - 1] == old_chain[j - 1]);
                }
            }
        }
        k += 1;
    }
    Ok(best)
}

} // verus!
