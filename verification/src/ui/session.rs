//! What the interface does when the user asks for a conversion.

use vstd::prelude::*;
use crate::contracts::dto::{ConversionOptions, RawConversionInput, RawInputView};
use crate::contracts::errors::{FacadeError, FacadeErrorView};
use crate::contracts::facade::{chain_conversion, lemma_default_request_defined, ConversionFacade};
use crate::contracts::parser::{parse_conversion_spec, ConversionParser};
use crate::contracts::processor::ConversionProcessor;
use super::app::{base_hint, base_number, App, AppView, TraceStateView};

verus! {

/// The options of a request made without options: prefixes detected,
/// fractions allowed, upper case, no trace, 16 fractional digits.
pub open spec fn default_options() -> ConversionOptions {
    ConversionOptions {
        allow_prefix_detection: true,
        allow_fractional_part: true,
        uppercase_output: true,
        generate_trace: false,
        max_fractional_digits: 16,
    }
}

/// The request that the converter tab makes of its state, converting to
/// `target_base` with `options`.
pub open spec fn tab_request(a: AppView, target_base: u8, options: ConversionOptions) -> RawInputView {
    RawInputView {
        raw_value: a.conversor.input,
        source_base_hint: base_hint(a.conversor.source_base),
        target_base,
        options,
    }
}

/// What asking for a conversion does to the interface and what error it
/// reports.
///
/// The input is converted to the target base with a trace. On success the
/// output shows the result and the trace tab is reset to the new steps. On
/// failure the input is converted to decimal without a trace: on success
/// the output shows "(decimal) " and the result; otherwise the interface is
/// unchanged and the error of that second request is reported.
pub open spec fn submit_spec(a: AppView) -> (AppView, Option<FacadeErrorView>) {
    let traced = ConversionOptions { generate_trace: true, ..default_options() };
    let first = chain_conversion(
        parse_conversion_spec(tab_request(a, base_number(a.conversor.target_base), traced)),
        ConversionProcessor,
    );
    match first {
        Ok(res) => (
            AppView {
                conversor: crate::ui::app::ConversorStateView { output: res.output_value, ..a.conversor },
                trace: TraceStateView {
                    valor_original: a.conversor.input,
                    base_origem: match base_hint(a.conversor.source_base) {
                        Some(h) => h,
                        None => res.source_base,
                    },
                    base_destino: base_number(a.conversor.target_base),
                    resultado: res.output_value,
                    passos: res.trace,
                    passo_atual: 0,
                },
                ..a
            },
            None,
        ),
        Err(_) => {
            let second = chain_conversion(
                parse_conversion_spec(tab_request(a, 10, default_options())),
                ConversionProcessor,
            );
            match second {
                Ok(res) => (
                    AppView {
                        conversor: crate::ui::app::ConversorStateView {
                            output: "(decimal) "@ + res.output_value,
                            ..a.conversor
                        },
                        ..a
                    },
                    None,
                ),
                Err(e) => (a, Some(e)),
            }
        },
    }
}

/// Converts what the converter tab holds, as `submit_spec` describes.
pub fn submit_conversion(
    app: &mut App,
    facade: &ConversionFacade<ConversionParser, ConversionProcessor>,
) -> (r: Option<FacadeError>)
    ensures
        final(app)@ == submit_spec(old(app)@).0,
        match r {
            Some(e) => submit_spec(old(app)@).1 == Some(e@),
            None => submit_spec(old(app)@).1 is None,
        },
{
    let traced = ConversionOptions { generate_trace: true, ..ConversionOptions::default() };
    let input = RawConversionInput {
        raw_value: app.conversor.input.clone(),
        source_base_hint: app.conversor.source_base.to_hint(),
        target_base: app.conversor.target_base.to_u8(),
        options: traced,
    };
    proof {
        lemma_default_request_defined(*facade, input);
    }
    match facade.request(input) {
        Ok(r) => {
            app.conversor.output = r.output_value.clone();
            app.trace.valor_original = app.conversor.input.clone();
            app.trace.base_origem = match app.conversor.source_base.to_hint() {
                Some(h) => h,
                None => r.source_base,
            };
            app.trace.base_destino = app.conversor.target_base.to_u8();
            app.trace.resultado = r.output_value.clone();
            app.trace.passos = r.trace;
            app.trace.passo_atual = 0;
            None
        },
        Err(_) => {
            let fallback_input = RawConversionInput {
                raw_value: app.conversor.input.clone(),
                source_base_hint: app.conversor.source_base.to_hint(),
                target_base: 10,
                options: ConversionOptions::default(),
            };
            proof {
                lemma_default_request_defined(*facade, fallback_input);
            }
            match facade.request(fallback_input) {
                Ok(r) => {
                    let mut out = String::from_str("(decimal) ");
                    out.append(r.output_value.as_str());
                    app.conversor.output = out;
                    None
                },
                Err(e) => Some(e),
            }
        },
    }
}

} // verus!
