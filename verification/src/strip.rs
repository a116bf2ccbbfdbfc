//! Rewrites a module without the sections that hold assets.

use crate::error::{ErrorCause, WassetError};
use crate::names::{is_asset_section, is_asset_section_name};
use crate::section::{
    append_raw_section, component_header, component_header_bytes, component_id, component_tag,
    core_module_id, core_module_tag, encode_bytes, framed, fresh_parser, header_bytes, leb128,
    module_header, module_payloads, new_parser, outcomes, parse_all, read_payload, PayloadInfo,
    SectionEvent,
};
use wasmparser::Payload;
use std::ops::Range;
use vstd::prelude::*;
use vstd::slice::slice_subrange;

verus! {

/// The state of a rewrite as a value: the bytes written for the module or
/// component that is being read, and under them, for each component that
/// encloses it, the outermost first, the bytes written for that component
/// and the tag of the section that is being read inside it.
#[verifier::ext_equal]
pub struct StripState {
    pub output: Seq<u8>,
    pub stack: Seq<(u8, Seq<u8>)>,
}

/// What one payload does to a rewrite.
pub enum StripStep {
    /// The payload cannot be applied: it refers to bytes that the module
    /// does not hold, or ends a nested module that has grown too large.
    Failed,
    /// The outermost module has ended; these are its bytes.
    Finished(Seq<u8>),
    /// The rewrite goes on in this state.
    Continue(StripState),
}

/// `output` with the section `section` of `module` framed after it, or
/// `None` where the module does not hold the bytes of the section.
pub open spec fn with_section(output: Seq<u8>, module: Seq<u8>, section: Option<(u8, Range<u64>)>)
    -> Option<Seq<u8>> {
    match section {
        None => Some(output),
        Some((tag, range)) => if range.start <= range.end <= module.len() && range.end
            - range.start <= u32::MAX {
            Some(output + framed(tag, module.subrange(range.start as int, range.end as int)))
        } else {
            None
        },
    }
}

/// The rewrite after the section of `payload` has been copied to `output`.
pub open spec fn copied(
    output: Seq<u8>,
    stack: Seq<(u8, Seq<u8>)>,
    module: Seq<u8>,
    payload: PayloadInfo,
) -> StripStep {
    match with_section(output, module, payload.section) {
        Some(output) => StripStep::Continue(StripState { output, stack }),
        None => StripStep::Failed,
    }
}

/// The rewrite after a nested section with the tag `tag` has begun: what
/// was written is set aside with the tag, and an empty buffer begins.
pub open spec fn nested(state: StripState, tag: u8) -> StripStep {
    StripStep::Continue(
        StripState { output: Seq::empty(), stack: state.stack.push((tag, state.output)) },
    )
}

/// What the payload `payload` of `module` does to the rewrite `state`.
///
/// A header writes the header of a core module or of a component, as it
/// was read. The start of a nested module or component sets the buffer
/// aside and begins an empty one. An end with nothing set aside finishes
/// the rewrite; any other end frames what was written as a section of the
/// kind that began, behind what was set aside last. A custom section that
/// holds assets is left out. What stands for a whole section is copied from
/// the module with its tag and a fresh length.
pub open spec fn strip_step(state: StripState, module: Seq<u8>, payload: PayloadInfo) -> StripStep {
    match payload.event {
        SectionEvent::Header { component } => copied(
            state.output + if component {
                component_header()
            } else {
                module_header()
            },
            state.stack,
            module,
            payload,
        ),
        SectionEvent::Module => nested(state, core_module_tag()),
        SectionEvent::Component => nested(state, component_tag()),
        SectionEvent::End => if state.stack.len() == 0 {
            StripStep::Finished(state.output)
        } else if state.output.len() > u32::MAX {
            StripStep::Failed
        } else {
            copied(
                state.stack.last().1 + seq![state.stack.last().0] + leb128(state.output.len())
                    + state.output,
                state.stack.drop_last(),
                module,
                payload,
            )
        },
        SectionEvent::Custom { name, .. } => if is_asset_section(name@) {
            StripStep::Continue(state)
        } else {
            copied(state.output, state.stack, module, payload)
        },
        _ => copied(state.output, state.stack, module, payload),
    }
}

/// A module that is being rewritten without its asset sections.
pub struct Stripper {
    /// The bytes written for the module that is being read.
    output: Vec<u8>,
    /// For each component that encloses it, the outermost first: the tag
    /// of the section that is being read inside it, and the bytes written
    /// for the component.
    stack: Vec<(u8, Vec<u8>)>,
}

impl View for Stripper {
    type V = StripState;

    closed spec fn view(&self) -> StripState {
        StripState {
            output: self.output@,
            stack: self.stack@.map_values(|entry: (u8, Vec<u8>)| (entry.0, entry.1@)),
        }
    }
}

/// Appends `bytes` to `sink`.
fn append(sink: &mut Vec<u8>, bytes: &[u8])
    ensures
        final(sink)@ == old(sink)@ + bytes@,
{
    sink.extend_from_slice(bytes);
}

impl Stripper {
    /// A rewrite that has written nothing yet.
    pub fn new() -> (stripper: Self)
        ensures
            stripper@ == (StripState { output: Seq::empty(), stack: Seq::empty() }),
    {
        let stripper = Stripper { output: Vec::new(), stack: Vec::new() };
        stripper
    }

    /// Sets what was written aside with the tag `tag` and begins an empty
    /// buffer.
    fn begin(&mut self, tag: u8)
        ensures
            nested(old(self)@, tag) == StripStep::Continue(final(self)@),
    {
        let mut output = Vec::new();
        std::mem::swap(&mut output, &mut self.output);
        self.stack.push((tag, output));
        assert(self@.stack =~= old(self)@.stack.push((tag, old(self)@.output)));
    }

    /// Frames the section `section` of `module` after what was written.
    fn copy_section(&mut self, module: &[u8], section: &Option<(u8, Range<u64>)>) -> (r: Result<
        (),
        WassetError,
    >)
        ensures
            match with_section(old(self)@.output, module@, *section) {
                Some(output) => r is Ok && final(self)@ == (StripState {
                    output,
                    stack: old(self)@.stack,
                }),
                None => r is Err && r->Err_0 is Deserialize,
            },
    {
        match section {
            None => Ok(()),
            Some((tag, range)) => {
                let len: u64 = module.len() as u64;
                if range.start <= range.end && range.end <= len {
                    if range.end - range.start > u32::MAX as u64 {
                        return Err(WassetError::from_deserialize(ErrorCause::TooLarge));
                    }
                    let contents = slice_subrange(module, range.start as usize, range.end as usize);
                    append_raw_section(*tag, contents, &mut self.output);
                    Ok(())
                } else {
                    Err(WassetError::from_deserialize(ErrorCause::SectionOutOfRange))
                }
            },
        }
    }

    /// Applies one payload of `module` to the rewrite. Returns `true` once
    /// the outermost module has ended; what was written is then final.
    pub fn apply(&mut self, module: &[u8], payload: &PayloadInfo) -> (r: Result<bool, WassetError>)
        ensures
            match strip_step(old(self)@, module@, *payload) {
                StripStep::Failed => r is Err && r->Err_0 is Deserialize,
                StripStep::Finished(output) => r == Ok::<bool, WassetError>(true)
                    && final(self)@.output == output,
                StripStep::Continue(state) => r == Ok::<bool, WassetError>(false) && final(self)@
                    == state,
            },
    {
        match &payload.event {
            SectionEvent::Header { component } => {
                let header = if *component {
                    component_header_bytes()
                } else {
                    header_bytes()
                };
                append(&mut self.output, header.as_slice());
            },
            SectionEvent::Module => {
                self.begin(core_module_id());
                return Ok(false);
            },
            SectionEvent::Component => {
                self.begin(component_id());
                return Ok(false);
            },
            SectionEvent::End => {
                match self.stack.pop() {
                    None => {
                        return Ok(true);
                    },
                    Some((tag, parent)) => {
                        if self.output.len() > u32::MAX as usize {
                            return Err(WassetError::from_deserialize(ErrorCause::TooLarge));
                        }
                        let mut parent = parent;
                        parent.push(tag);
                        encode_bytes(self.output.as_slice(), &mut parent);
                        self.output = parent;
                    },
                }
            },
            SectionEvent::Custom { name, .. } => {
                if is_asset_section_name(name.as_str()) {
                    return Ok(false);
                }
            },
            _ => {},
        }
        match self.copy_section(module, &payload.section) {
            Ok(()) => Ok(false),
            Err(err) => Err(err),
        }
    }

    /// The bytes written so far.
    pub fn into_output(self) -> (output: Vec<u8>)
        ensures
            output@ == self@.output,
    {
        self.output
    }
}

/// The rewrite of `module` that the payloads from `at` on give to `state`:
/// each payload is applied in turn, up to the one that finishes the
/// rewrite, or to the last. `None` where the parser fails before that, or
/// where a payload cannot be applied.
pub open spec fn strip_from(
    module: Seq<u8>,
    payloads: Seq<Option<PayloadInfo>>,
    at: int,
    state: StripState,
) -> Option<Seq<u8>>
    decreases payloads.len() - at,
{
    if at < 0 || at >= payloads.len() {
        Some(state.output)
    } else {
        match payloads[at] {
            None => None,
            Some(payload) => match strip_step(state, module, payload) {
                StripStep::Failed => None,
                StripStep::Finished(output) => Some(output),
                StripStep::Continue(state) => strip_from(module, payloads, at + 1, state),
            },
        }
    }
}

/// `module` without its asset sections, or `None` where it cannot be
/// rewritten.
pub open spec fn stripped(module: Seq<u8>) -> Option<Seq<u8>> {
    strip_from(
        module,
        module_payloads(fresh_parser(0), module),
        0,
        StripState { output: Seq::empty(), stack: Seq::empty() },
    )
}

/// What a list of payloads and errors is as a value, each error taken as
/// `None`.
pub open spec fn plain(payloads: Seq<Result<PayloadInfo, wasmparser::Error>>) -> Seq<
    Option<PayloadInfo>,
> {
    payloads.map_values(
        |payload: Result<PayloadInfo, wasmparser::Error>|
            match payload {
                Ok(payload) => Some(payload),
                Err(_) => None,
            },
    )
}

/// Reads from each payload of a list what the library reads of it.
fn read_payloads<'a>(results: Vec<Result<Payload<'a>, wasmparser::Error>>) -> (payloads: Vec<
    Result<PayloadInfo, wasmparser::Error>,
>)
    ensures
        plain(payloads@) == outcomes(results@),
{
    let mut payloads: Vec<Result<PayloadInfo, wasmparser::Error>> = Vec::new();
    for result in it: results
        invariant
            payloads@.len() == it.index(),
            plain(payloads@) == outcomes(results@).take(it.index() as int),
    {
        match result {
            Ok(payload) => payloads.push(Ok(read_payload(&payload))),
            Err(err) => payloads.push(Err(err)),
        }
    }
    payloads
}

/// Rewrites `module` by the payloads `payloads` that the parser gave for
/// it.
pub fn strip_payloads(module: &[u8], payloads: Vec<Result<PayloadInfo, wasmparser::Error>>) -> (r:
    Result<Vec<u8>, WassetError>)
    ensures
        match strip_from(
            module@,
            plain(payloads@),
            0,
            StripState { output: Seq::empty(), stack: Seq::empty() },
        ) {
            Some(output) => r matches Ok(bytes) && bytes@ == output,
            None => r matches Err(err) && err is Deserialize,
        },
{
    let mut stripper = Stripper::new();
    for item in it: payloads
        invariant
            strip_from(module@, plain(payloads@), it.index() as int, stripper@) == strip_from(
                module@,
                plain(payloads@),
                0,
                StripState { output: Seq::empty(), stack: Seq::empty() },
            ),
    {
        match item {
            Ok(payload) => match stripper.apply(module, &payload) {
                Ok(finished) => {
                    if finished {
                        return Ok(stripper.into_output());
                    }
                },
                Err(err) => {
                    return Err(err);
                },
            },
            Err(err) => {
                return Err(WassetError::from_deserialize(ErrorCause::Module(err)));
            },
        }
    }
    Ok(stripper.into_output())
}

/// Returns the module bytecode with any custom asset sections removed.
///
/// It fails where the module is malformed or truncated.
pub fn strip_module(module: &[u8]) -> (r: Result<Vec<u8>, WassetError>)
    ensures
        match stripped(module@) {
            Some(output) => r matches Ok(bytes) && bytes@ == output,
            None => r matches Err(err) && err is Deserialize,
        },
{
    strip_payloads(module, read_payloads(parse_all(new_parser(0), module)))
}

} // verus!
