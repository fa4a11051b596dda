//! Imports of the JavaScript bridge, for which there are only stubs: each
//! records its name and returns the zero or null of its declared results.

use vstd::prelude::*;

use crate::emscripten_invoke::{read_table, sig_views, table_sigs, ImportSig};
use crate::emscripten_runtime::{
    default_of, default_results, JsFfiCallLog, JsFfiCallView, Val,
};

verus! {

/// The stubs by signature.
pub const STUB_TABLE: &'static str = "\
    e i JsvArray_Check JsvFunction_Check JsvGenerator_Check JsvAsyncGenerator_Check \
    JsvPromise_Check JsvNoValue_Check Jsv_to_bool JsProxy_Bool_js JsProxy_compute_typeflags \
    JsDoubleProxy_unwrap_helper JsArray_reverse_js JsMap_clear_js get_length_helper \
    get_length_string JsObjMap_length_js Jsv_constructorName pyproxy_AsPyObject \
    pyproxy_Check is_comlink_proxy js2python_immutable_js js2python_js destroy_proxies_js;\
    e v JsvError_Throw raw_call_js set_pyodide_module set_suspender restoreState \
    gc_register_proxies destroy_jsarray_entries;\
    e e JsvArray_ShallowCopy JsProxy_Dir_js JsProxy_GetAsyncIter_js JsProxy_GetIter_js \
    JsMap_GetIter_js JsObjMap_GetIter_js JsvObject_toString JsvObject_Entries JsvObject_Keys \
    JsvObject_Values Jsv_typeof JsArray_reversed_iterator JsvPromise_Resolve \
    get_async_js_call_done_callback;\
    v e JsvArray_New JsvMap_New JsvObject_New JsvSet_New JsvLiteralMap_New get_suspender \
    restore_stderr saveState my_dict_converter __hiwire_deduplicate_new;\
    ee i Jsv_less_than Jsv_less_than_equal Jsv_greater_than Jsv_greater_than_equal Jsv_equal \
    Jsv_not_equal JsvArray_Push JsObjMap_contains_js JsArray_count_js JsvSet_Add \
    __hiwire_deduplicate_get;\
    ee v JsvArray_Extend __hiwire_deduplicate_delete _python2js_handle_postprocess_list;\
    ee e JsProxy_subscript_js JsObjMap_subscript_js syncifyHandler wrap_generator \
    wrap_async_generator JsvFunction_Call_OneArg JsvObject_CallMethod_NoArgs \
    JsvFunction_Construct _JsArray_PostProcess_helper;\
    ei e JsvArray_Get JsvArray_Delete JsProxy_GetAttr_js JsBuffer_DecodeString_js \
    JsArray_repeat_js proxy_cache_get python2js__default_converter_js \
    _python2js_cache_lookup;\
    ei i JsvBuffer_assignToPtr JsvBuffer_assignFromPtr JsvBuffer_intoFile \
    JsvBuffer_readFromFile JsvBuffer_writeToFile JsArray_inplace_repeat_js \
    JsProxy_DelAttr_js;\
    ei v destroy_proxy destroy_proxies;\
    eee i JsObjMap_ass_subscript_js JsvMap_Set JsvObject_SetAttr _JsArray_PushEntry_helper;\
    eee e JsvFunction_CallBound JsvObject_CallMethod_OneArg JsvObject_CallMethod;\
    eeee e JsvObject_CallMethod_TwoArgs;\
    ii e create_once_callable JsvNum_fromDigits _python2js_ucs1 _python2js_ucs2 \
    _python2js_ucs4 array_to_js;\
    iii e JsException_new_helper;\
    eie i JsProxy_SetAttr_js JsvArray_Set JsvArray_Insert js2python_convert \
    _python2js_add_to_cache;\
    iei e new_error;\
    iiei e create_promise_handles;\
    eii e handle_next_result_js;\
    eiiii i _agen_handle_result_js;\
    eiiii v JsBuffer_get_info;\
    eiiii e JsvArray_slice;\
    eiiiiii i JsvArray_slice_assign;\
    eeii i JsArray_index_js;\
    i e JsvUTF8ToString JsvNum_fromInt pyproxy_new;\
    d e JsvNum_fromDouble;\
    eei v __hiwire_deduplicate_set;\
    eie v proxy_cache_set;\
    eeei v _python2js_addto_postprocess_list;\
    ieee e python2js_custom__create_jscontext;\
    iiiii e pyproxy_new_ex;\
    iiiiiii e _python2js_buffer_inner;\
    ie e _pyproxyGen_make_result;\
    iiiiiieeiiii e _pyproxy_get_buffer_result";

/// All stubs with their signatures.
pub fn jsffi_stubs() -> (r: Vec<ImportSig>)
    ensures
        sig_views(r@) == table_sigs(STUB_TABLE@),
{
    read_table(STUB_TABLE)
}

/// A call of the stub `sig`: its name is recorded, and it returns the defaults of
/// its results.
pub fn call_stub(log: &mut JsFfiCallLog, sig: &ImportSig) -> (r: Vec<Val>)
    ensures
        final(log)@ == (JsFfiCallView {
            names: old(log)@.names.insert(sig@.name),
            total: old(log)@.total.wrapping_add(1),
        }),
        r@ == Seq::new(sig@.results.len(), |i: int| default_of(sig@.results[i])),
{
    log.record(sig.name.as_str());
    default_results(&sig.results)
}

} // verus!
