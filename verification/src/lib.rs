//! A text-templating engine.
//!
//! A template mixes literal text with placeholders (`{{ name }}`), scope
//! variable declarations (`{$ key = value $}`), control tags
//! (`{% for item in coll %}`, `{% if a == b %}`) and raw regions
//! (`{# verbatim #}`).  Filling a template runs three stages: a scanner that
//! classifies character spans, a builder that groups tokens into lines and
//! nested block tables, and a renderer that walks the tree against a layered
//! variable scope stack.

use vstd::prelude::*;

pub mod ast;
pub mod grammar;
pub mod laws;
pub mod scan;
pub mod value;
pub mod chars;
pub mod context;
pub mod render;

verus! {

/// The data document's spec-level value: the given document, or null.
pub open spec fn spec_data_view(data: Option<&value::DataValue>) -> value::ValueV {
    match data {
        Some(d) => value::value_view(*d),
        None => value::ValueV::Null,
    }
}

/// Fill a template against an optional data document: parse it into its
/// table, then render against a fresh context.  Malformed syntax is fatal
/// and yields the parse error; missing data degrades per occurrence.  A
/// template with no delimiter pairs always parses and renders to the
/// template's own text — every `\n` and `\r\n` in its original position —
/// and in that case the result is also exactly the render spec of its line
/// table under the fresh context (whose timestamp only the clock knows).
pub fn fill(template_content: &str, data: Option<&value::DataValue>) -> (r: Result<
    String,
    grammar::ParseError,
>)
    ensures
        (match r {
            Ok(_) => scan::scan_spec(template_content@) is Ok && (exists|now: Seq<char>|
                r->Ok_0@ == render::spec_render_table(
                    template_content@,
                    scan::scan_spec(template_content@)->Ok_0,
                    context::init_adc(spec_data_view(data), now),
                    false,
                    true,
                )),
            Err(e) => scan::scan_spec(template_content@) == Err::<
                crate::ast::TableV,
                grammar::ParseError,
            >(e),
        }),
        scan::no_delims(template_content@) ==> r is Ok && r->Ok_0@ == template_content@,
        scan::no_delims(template_content@) ==> r is Ok && (exists|now: Seq<char>|
            r->Ok_0@ == render::spec_render_table(
                template_content@,
                scan::lines_table_spec(template_content@),
                context::init_adc(spec_data_view(data), now),
                false,
                true,
            )),
{
    let template_chars = chars::str_to_chars(template_content);
    match scan::generate_tokens(&template_chars) {
        Err(e) => Err(e),
        Ok(template_ast) => {
            let mut data_ctx = context::AutoDataContext::new(data);
            let ghost adc0 = context::adc_view(data_ctx);
            let tlen = template_chars.len();
            let out = render::fill(&template_chars, &template_ast, &mut data_ctx, false, true);
            proof {
                let gnow = adc0.sys[0].1;
                assert(adc0 == context::init_adc(spec_data_view(data), gnow));
                assert(out@ == render::spec_render_table(
                    template_content@,
                    scan::scan_spec(template_content@)->Ok_0,
                    context::init_adc(spec_data_view(data), gnow),
                    false,
                    true,
                ));
                if scan::no_delims(template_content@) {
                    let now = adc0.sys[0].1;
                    assert(adc0 == context::init_adc(spec_data_view(data), now));
                    assert(template_content@.len() == tlen as int);
                    laws::lemma_lines_table_render(template_content@, adc0);
                    assert(out@ == render::spec_render_table(
                        template_content@,
                        scan::lines_table_spec(template_content@),
                        context::init_adc(spec_data_view(data), now),
                        false,
                        true,
                    ));
                }
            }
            Ok(out)
        },
    }
}

/// Fill a template against a data document.
pub fn fill_template(template_content: String, data: &value::DataValue) -> (r: Result<
    String,
    grammar::ParseError,
>)
    ensures
        (match r {
            Ok(_) => scan::scan_spec(template_content@) is Ok && (exists|now: Seq<char>|
                r->Ok_0@ == render::spec_render_table(
                    template_content@,
                    scan::scan_spec(template_content@)->Ok_0,
                    context::init_adc(value::value_view(*data), now),
                    false,
                    true,
                )),
            Err(e) => scan::scan_spec(template_content@) == Err::<
                crate::ast::TableV,
                grammar::ParseError,
            >(e),
        }),
        scan::no_delims(template_content@) ==> r is Ok && r->Ok_0@ == template_content@,
        scan::no_delims(template_content@) ==> r is Ok && (exists|now: Seq<char>|
            r->Ok_0@ == render::spec_render_table(
                template_content@,
                scan::lines_table_spec(template_content@),
                context::init_adc(value::value_view(*data), now),
                false,
                true,
            )),
{
    fill(template_content.as_str(), Some(data))
}

} // verus!
