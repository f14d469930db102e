use lv::aimeta::{ai_from_chunks, comfy_text, parse_a1111, parse_comfyui, AiBasic};
use lv::png::{png_text_chunks, PngError};
use std::io::Write;

fn chunk(ty: &[u8; 4], data: &[u8]) -> Vec<u8> {
    let mut out = Vec::new();
    out.extend_from_slice(&(data.len() as u32).to_be_bytes());
    out.extend_from_slice(ty);
    out.extend_from_slice(data);
    out.extend_from_slice(&[0, 0, 0, 0]);
    out
}

fn png(chunks: &[Vec<u8>]) -> Vec<u8> {
    let mut out = vec![0x89, 0x50, 0x4E, 0x47, 0x0D, 0x0A, 0x1A, 0x0A];
    for c in chunks {
        out.extend_from_slice(c);
    }
    out
}

#[test]
fn parse_a1111_text() {
    let params = "a beautiful landscape\nNegative prompt: ugly\nSteps: 20, Sampler: Euler a, CFG scale: 7, Seed: 42, Model: sd_xl_base";
    let ai = parse_a1111(params);
    assert_eq!(ai.prompt, "a beautiful landscape");
    assert_eq!(ai.model, "sd_xl_base");
}

#[test]
fn parse_a1111_multiline_prompt_and_crlf() {
    let params = "line one\r\nline two\r\nSteps: 30, Model: m1, Model: m2\r\n";
    let ai = parse_a1111(params);
    assert_eq!(ai.prompt, "line one\nline two");
    assert_eq!(ai.model, "m2");
}

#[test]
fn parse_a1111_without_model() {
    let ai = parse_a1111("just a prompt");
    assert_eq!(ai.prompt, "just a prompt");
    assert_eq!(ai.model, "");
    let empty = parse_a1111("");
    assert_eq!(empty.prompt, "");
}

#[test]
fn png_text_and_itxt_chunks() {
    let mut itxt = b"parameters\0".to_vec();
    itxt.extend_from_slice(&[0, 0]);
    itxt.extend_from_slice(b"en\0\0");
    itxt.extend_from_slice("déjà vu, Model: x".as_bytes());
    let data = png(&[
        chunk(b"IHDR", &[0; 13]),
        chunk(b"tEXt", b"Software\0lv"),
        chunk(b"iTXt", &itxt),
        chunk(b"IEND", &[]),
        chunk(b"tEXt", b"after\0end"),
    ]);
    let entries = png_text_chunks(&data).unwrap();
    assert_eq!(entries.len(), 2);
    assert_eq!(entries[0], ("Software".to_string(), "lv".to_string()));
    assert_eq!(entries[1], ("parameters".to_string(), "déjà vu, Model: x".to_string()));
}

#[test]
fn png_compressed_itxt_is_inflated() {
    let mut enc = flate2::write::ZlibEncoder::new(Vec::new(), flate2::Compression::default());
    enc.write_all(b"hello inflated world").unwrap();
    let packed = enc.finish().unwrap();
    let mut itxt = b"comment\0".to_vec();
    itxt.extend_from_slice(&[1, 0]);
    itxt.extend_from_slice(b"\0\0");
    itxt.extend_from_slice(&packed);
    let data = png(&[chunk(b"iTXt", &itxt), chunk(b"IEND", &[])]);
    let entries = png_text_chunks(&data).unwrap();
    assert_eq!(entries, vec![("comment".to_string(), "hello inflated world".to_string())]);
}

#[test]
fn png_lossy_text_replaces_invalid_utf8() {
    let data = png(&[chunk(b"tEXt", b"k\0a\xffb")]);
    let entries = png_text_chunks(&data).unwrap();
    assert_eq!(entries[0].1, "a\u{FFFD}b");
}

#[test]
fn png_errors() {
    assert_eq!(png_text_chunks(&vec![0x89, 0x50]), Err(PngError::Truncated));
    assert_eq!(png_text_chunks(&b"GIF89a..........".to_vec()), Err(PngError::NotPng));
    let mut cut = png(&[chunk(b"tEXt", b"key\0value")]);
    cut.truncate(cut.len() - 8);
    assert_eq!(png_text_chunks(&cut), Err(PngError::Truncated));
    assert_eq!(png_text_chunks(&png(&[])), Ok(vec![]));
}

#[test]
fn ai_prefers_comfy_then_a1111() {
    let chunks = vec![
        ("prompt".to_string(), "{\"3\":{}}".to_string()),
        ("parameters".to_string(), "cat\nSteps: 1, Model: m".to_string()),
    ];
    assert_eq!(comfy_text(&chunks), Some("{\"3\":{}}".to_string()));
    let comfy = AiBasic { prompt: "a cute cat".to_string(), model: "model.safetensors".to_string() };
    let ai = ai_from_chunks(&chunks, Some(comfy)).unwrap();
    assert_eq!(ai.prompt, "a cute cat");
    let ai2 = ai_from_chunks(&chunks, None).unwrap();
    assert_eq!(ai2.prompt, "cat");
    assert_eq!(ai2.model, "m");
    assert!(ai_from_chunks(&vec![("Software".to_string(), "x".to_string())], None).is_none());
}

#[test]
fn parse_comfyui_json() {
    let json = r#"{"3":{"inputs":{"seed":123,"steps":9,"cfg":1.0,"sampler_name":"euler","model":["16",0],"positive":["6",0],"negative":["7",0],"latent_image":["13",0]},"class_type":"KSampler","_meta":{"title":"KSampler"}},"6":{"inputs":{"text":"a cute cat","clip":["18",0]},"class_type":"CLIPTextEncode","_meta":{"title":"CLIP Text Encode (Positive Prompt)"}},"7":{"inputs":{"text":"ugly","clip":["18",0]},"class_type":"CLIPTextEncode","_meta":{"title":"CLIP Text Encode (Negative Prompt)"}},"16":{"inputs":{"unet_name":"model.safetensors"},"class_type":"UNETLoader","_meta":{"title":"Load Diffusion Model"}}}"#;
    let ai = parse_comfyui(json).unwrap();
    assert_eq!(ai.prompt, "a cute cat");
    assert_eq!(ai.model, "model.safetensors");
}

#[test]
fn parse_comfyui_rejects_non_objects_and_empty_workflows() {
    assert!(parse_comfyui("[1, 2]").is_none());
    assert!(parse_comfyui("not json").is_none());
    assert!(parse_comfyui(r#"{"1":{"class_type":"KSampler","inputs":{}}}"#).is_none());
    let ck = parse_comfyui(r#"{"1":{"class_type":"CheckpointLoaderSimple","inputs":{"ckpt_name":"sd15"}}}"#).unwrap();
    assert_eq!(ck.model, "sd15");
    assert_eq!(ck.prompt, "");
}
