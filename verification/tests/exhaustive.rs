use math_scopes::{extract_tex_math, replace_scopes, Outcome};

const ALPHABET: [u8; 6] = [b'a', b'$', b'\\', b'<', b'/', 0xc3];

/// Every buffer over the alphabet, up to the given length.
fn buffers(max_len: usize) -> Vec<Vec<u8>> {
    let mut all: Vec<Vec<u8>> = vec![Vec::new()];
    let mut last: Vec<Vec<u8>> = vec![Vec::new()];
    for _ in 0..max_len {
        let mut next = Vec::new();
        for buffer in &last {
            for byte in ALPHABET {
                let mut longer = buffer.clone();
                longer.push(byte);
                next.push(longer);
            }
        }
        all.extend(next.iter().cloned());
        last = next;
    }
    all
}

/// The scan for the end of a scope, step by step with one byte of lookahead.
fn scan_step_by_step(text: &[u8], block_mode: bool) -> Option<&[u8]> {
    let mut i = 0;
    loop {
        match (text.get(i), text.get(i + 1)) {
            (Some(b'$'), Some(b'$')) if block_mode => break,
            (Some(b'$'), _) if !block_mode => break,
            (Some(b'\\'), Some(b'$')) => i += 1,
            (Some(b'<'), Some(b'/')) => return None,
            (None, _) => return None,
            (_, None) if block_mode => return None,
            _ => (),
        }
        i += 1;
    }
    Some(&text[..i])
}

/// The same scan, said in one sentence: the first `$` that no backslash
/// precedes (and that a second `$` follows, in block mode), unless `</`
/// comes before it.
fn first_closing_delimiter(text: &[u8], block_mode: bool) -> Option<&[u8]> {
    for i in 0..text.len() {
        let escaped = i > 0 && text[i - 1] == b'\\';
        let followed = text.get(i + 1) == Some(&b'$');
        if text[i] == b'$' && !escaped && (!block_mode || followed) {
            return Some(&text[..i]);
        }
        if text[i] == b'<' && text.get(i + 1) == Some(&b'/') {
            return None;
        }
    }
    None
}

fn echo(formula: &str, block_mode: bool) -> Outcome {
    if formula.contains('a') {
        Ok(format!("({}:{})", formula, block_mode))
    } else {
        Err(format!("{}:{}", formula, block_mode))
    }
}

/// The pass, step by step.
fn pass_step_by_step(bytes: &[u8]) -> (String, Vec<String>) {
    let mut output = Vec::new();
    let mut diagnostics = Vec::new();
    let mut i = 0;
    while i < bytes.len() {
        match (bytes[i], bytes.get(i + 1)) {
            (b'\\', Some(b'$')) => {
                output.push(b'$');
                i += 2;
            }
            (b'$', next) => {
                let block_mode = next == Some(&b'$');
                let offset = if block_mode { 2 } else { 1 };
                match scan_step_by_step(&bytes[i + offset..], block_mode) {
                    None => {
                        output.extend(&bytes[i..i + offset]);
                        i += offset;
                    }
                    Some(formula) => {
                        i += formula.len() + offset * 2;
                        match echo(&String::from_utf8_lossy(formula), block_mode) {
                            Ok(html) => output.extend(html.as_bytes()),
                            Err(message) => diagnostics.push(message),
                        }
                    }
                }
            }
            (byte, _) => {
                output.push(byte);
                i += 1;
            }
        }
    }
    (String::from_utf8_lossy(&output).to_string(), diagnostics)
}

#[test]
fn extraction_agrees_with_the_scan_on_every_short_buffer() {
    for text in buffers(7) {
        for block_mode in [false, true] {
            let found = extract_tex_math(&text, block_mode);
            let stepped = scan_step_by_step(&text, block_mode);
            let first = first_closing_delimiter(&text, block_mode);
            assert_eq!(found, stepped, "{:?} {}", text, block_mode);
            assert_eq!(found, first, "{:?} {}", text, block_mode);
        }
    }
}

#[test]
fn pass_agrees_with_the_steps_on_every_short_buffer() {
    for text in buffers(7) {
        let res = replace_scopes(&text, echo);
        let (html, diagnostics) = pass_step_by_step(&text);
        assert_eq!(res.html, html, "{:?}", text);
        assert_eq!(res.diagnostics, diagnostics, "{:?}", text);
    }
}
