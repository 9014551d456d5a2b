//! Generation parameters: the value object sent with each generate request,
//! and the fluent builder that enforces its completeness invariant.

use vstd::prelude::*;
use crate::model::Model;

verus! {

/// A non-negative decimal number with up to three fractional digits, held as
/// a whole part and three decimal fraction digits. It stands in for the
/// protocol's fractional sampling parameters (temperature, top-p), which the
/// wire format carries as decimal number text.
#[derive(Clone, Copy, Debug, PartialEq, Eq, Structural)]
pub struct Decimal {
    pub whole: u32,
    pub tenths: u8,
    pub hundredths: u8,
    pub thousandths: u8,
}

impl Decimal {
    /// Well-formed: each fraction position holds one decimal digit.
    pub open spec fn wf(self) -> bool {
        self.tenths < 10 && self.hundredths < 10 && self.thousandths < 10
    }

    /// The fractional part, in thousandths.
    pub open spec fn spec_milli(self) -> int {
        self.tenths * 100 + self.hundredths * 10 + self.thousandths
    }

    /// Builds the number `whole + milli/1000` from a whole part and a
    /// fractional part given in thousandths.
    pub fn from_parts(whole: u32, milli: u32) -> (d: Decimal)
        requires
            milli < 1000,
        ensures
            d.wf(),
            d.whole == whole,
            d.spec_milli() == milli,
    {
        let t = milli / 100;
        let r = milli % 100;
        let h = r / 10;
        let m = r % 10;
        proof {
            vstd::arithmetic::div_mod::lemma_fundamental_div_mod(milli as int, 100);
            vstd::arithmetic::div_mod::lemma_fundamental_div_mod(r as int, 10);
        }
        Decimal { whole, tenths: t as u8, hundredths: h as u8, thousandths: m as u8 }
    }
}

/// The mathematical model of a parameter set: each optional field as a plain
/// value, texts as character sequences.
pub ghost struct ParamsView {
    pub model: Option<Model>,
    pub max_length: Option<u32>,
    pub inputs: Option<Seq<char>>,
    pub stop_sequence: Option<Seq<char>>,
    pub do_sample: Option<bool>,
    pub temperature: Option<Decimal>,
    pub top_k: Option<u32>,
    pub top_p: Option<Decimal>,
    pub max_new_tokens: Option<u32>,
}

/// The parameter set with no field set.
pub open spec fn empty_params() -> ParamsView {
    ParamsView {
        model: None,
        max_length: None,
        inputs: None,
        stop_sequence: None,
        do_sample: None,
        temperature: None,
        top_k: None,
        top_p: None,
        max_new_tokens: None,
    }
}

impl ParamsView {
    /// The completeness invariant: at least one of the two length bounds is
    /// set. A parameter set violating this is never built.
    pub open spec fn complete(self) -> bool {
        self.max_length is Some || self.max_new_tokens is Some
    }

    /// Every fractional parameter that is set is a well-formed decimal.
    pub open spec fn valid(self) -> bool {
        &&& (self.temperature matches Some(d) ==> d.wf())
        &&& (self.top_p matches Some(d) ==> d.wf())
    }
}

/// An immutable set of generation parameters, consumed by one generate call.
/// Built through [`GenerateParamsBuilder`], which guarantees that at least
/// one of `max_length` and `max_new_tokens` is set.
#[derive(Clone, Debug)]
pub struct GenerateParams {
    pub model: Option<Model>,
    pub max_length: Option<u32>,
    pub inputs: Option<String>,
    pub stop_sequence: Option<String>,
    pub do_sample: Option<bool>,
    pub temperature: Option<Decimal>,
    pub top_k: Option<u32>,
    pub top_p: Option<Decimal>,
    pub max_new_tokens: Option<u32>,
}

impl View for GenerateParams {
    type V = ParamsView;

    open spec fn view(&self) -> ParamsView {
        ParamsView {
            model: self.model,
            max_length: self.max_length,
            inputs: self.inputs.deep_view(),
            stop_sequence: self.stop_sequence.deep_view(),
            do_sample: self.do_sample,
            temperature: self.temperature,
            top_k: self.top_k,
            top_p: self.top_p,
            max_new_tokens: self.max_new_tokens,
        }
    }
}

/// A fluent accumulator for [`GenerateParams`]: one setter per optional
/// field, last write per field wins, and a terminal [`build`] that yields a
/// parameter set only when the completeness invariant holds.
///
/// [`build`]: GenerateParamsBuilder::build
pub struct GenerateParamsBuilder(GenerateParams);

impl View for GenerateParamsBuilder {
    type V = ParamsView;

    closed spec fn view(&self) -> ParamsView {
        self.0@
    }
}

impl GenerateParamsBuilder {
    /// A builder with no field set.
    pub fn new() -> (b: Self)
        ensures
            b@ == empty_params(),
    {
        Self(
            GenerateParams {
                model: None,
                max_length: None,
                inputs: None,
                stop_sequence: None,
                do_sample: None,
                temperature: None,
                top_k: None,
                top_p: None,
                max_new_tokens: None,
            },
        )
    }

    /// Sets the model; every other field keeps its value.
    pub fn model(self, model: Model) -> (b: Self)
        ensures
            b@ == (ParamsView { model: Some(model), ..self@ }),
    {
        let mut b = self;
        b.0.model = Some(model);
        b
    }

    /// Sets the input text; every other field keeps its value.
    pub fn inputs(self, inputs: String) -> (b: Self)
        ensures
            b@ == (ParamsView { inputs: Some(inputs@), ..self@ }),
    {
        let mut b = self;
        b.0.inputs = Some(inputs);
        b
    }

    /// Sets the sampling toggle; every other field keeps its value.
    pub fn do_sample(self, do_sample: bool) -> (b: Self)
        ensures
            b@ == (ParamsView { do_sample: Some(do_sample), ..self@ }),
    {
        let mut b = self;
        b.0.do_sample = Some(do_sample);
        b
    }

    /// Sets the sampling temperature; every other field keeps its value.
    pub fn temperature(self, temperature: Decimal) -> (b: Self)
        ensures
            b@ == (ParamsView { temperature: Some(temperature), ..self@ }),
    {
        let mut b = self;
        b.0.temperature = Some(temperature);
        b
    }

    /// Sets top-k; every other field keeps its value.
    pub fn top_k(self, top_k: u32) -> (b: Self)
        ensures
            b@ == (ParamsView { top_k: Some(top_k), ..self@ }),
    {
        let mut b = self;
        b.0.top_k = Some(top_k);
        b
    }

    /// Sets top-p; every other field keeps its value.
    pub fn top_p(self, top_p: Decimal) -> (b: Self)
        ensures
            b@ == (ParamsView { top_p: Some(top_p), ..self@ }),
    {
        let mut b = self;
        b.0.top_p = Some(top_p);
        b
    }

    /// Sets the maximum total length; every other field keeps its value.
    pub fn max_length(self, max_length: u32) -> (b: Self)
        ensures
            b@ == (ParamsView { max_length: Some(max_length), ..self@ }),
    {
        let mut b = self;
        b.0.max_length = Some(max_length);
        b
    }

    /// Sets the maximum number of new tokens; every other field keeps its
    /// value.
    pub fn max_new_tokens(self, max_new_tokens: u32) -> (b: Self)
        ensures
            b@ == (ParamsView { max_new_tokens: Some(max_new_tokens), ..self@ }),
    {
        let mut b = self;
        b.0.max_new_tokens = Some(max_new_tokens);
        b
    }

    /// Sets the stop sequence; every other field keeps its value.
    pub fn stop_sequence(self, stop_sequence: String) -> (b: Self)
        ensures
            b@ == (ParamsView { stop_sequence: Some(stop_sequence@), ..self@ }),
    {
        let mut b = self;
        b.0.stop_sequence = Some(stop_sequence);
        b
    }

    /// Finishes the build. Yields the accumulated parameter set exactly when
    /// at least one of `max_length` and `max_new_tokens` was set; otherwise
    /// there is no usable parameter object.
    pub fn build(self) -> (r: Option<GenerateParams>)
        ensures
            r matches Some(p) <==> self@.complete(),
            r matches Some(p) ==> p@ == self@,
    {
        if self.0.max_length.is_none() && self.0.max_new_tokens.is_none() {
            None
        } else {
            Some(self.0)
        }
    }
}

} // verus!
