use morse::MorseError;
use morse::decode_phrase;
use morse::decode_tokens_x;
use morse::encode_graphemes;
use morse::encode_phrase;
use morse::token_lookup;
use morse::grapheme_to_morse;
use morse::morse_to_grapheme;
use morse::morse_to_word;
use morse::word_to_morse;

#[test]
fn test_standard_morse() {
    let sos = word_to_morse("SOS");
    assert_eq!(sos, "... --- ...");

    let god = "What hath God wrought"
        .split_whitespace()
        .map(|x| word_to_morse(x))
        .collect::<Vec<String>>()
        .join(" / ");
    assert_eq!(god, ".-- .... .- - / .... .- - .... / --. --- -.. / .-- .-. --- ..- --. .... -");
}

#[test]
fn test_utf8_morse() {
    let crab = word_to_morse("\u{1F980}");
    assert_eq!(crab, "-..... ....---- .--..... .-.--..- .------- .....-");
}

#[test]
fn test_mixed_morse() {
    let sos_crab = word_to_morse("SOS \u{1F980}");
    let crab_sos =
        morse_to_word("-..... ....---- .--..... .-.--..- .------- .....- ... --- ...").unwrap();
    assert_eq!(sos_crab, "... --- ... / -..... ....---- .--..... .-.--..- .------- .....-");
    assert_eq!(crab_sos, "\u{1F980}SOS");
}

#[test]
fn encode_single_symbols() {
    assert_eq!(grapheme_to_morse("s"), "...");
    assert_eq!(grapheme_to_morse("S"), "...");
    assert_eq!(grapheme_to_morse(" "), "/");
    assert_eq!(grapheme_to_morse("0"), "-----");
    assert_eq!(grapheme_to_morse("$"), "...-..-");
    assert_eq!(grapheme_to_morse("@"), ".--.-.");
}

#[test]
fn encode_full_alphabet() {
    assert_eq!(
        word_to_morse("abcdefghijklmnopqrstuvwxyz"),
        ".- -... -.-. -.. . ..-. --. .... .. .--- -.- .-.. -- -. --- .--. --.- .-. ... - ..- ...- .-- -..- -.-- --.."
    );
    assert_eq!(
        word_to_morse("0123456789"),
        "----- .---- ..--- ...-- ....- ..... -.... --... ---.. ----."
    );
    assert_eq!(
        word_to_morse(".,?'!/()&:;=+-_\"$@"),
        ".-.-.- --..-- ..--.. .----. -.-.-- -..-. -.--. -.--.- .-... ---... -.-.-. -...- .-.-. -....- ..--.- .-..-. ...-..- .--.-."
    );
}

#[test]
fn encode_grapheme_escape_block() {
    assert_eq!(grapheme_to_morse("\u{1F980}"), "-..... ....---- .--..... .-.--..- .------- .....-");
}

#[test]
fn decode_single_tokens() {
    assert_eq!(morse_to_grapheme("..."), Ok("S".to_string()));
    assert_eq!(morse_to_grapheme("/"), Ok(" ".to_string()));
    assert_eq!(morse_to_grapheme("-----"), Ok("0".to_string()));
    assert_eq!(morse_to_grapheme(".-.-.-"), Ok(".".to_string()));
    assert_eq!(morse_to_grapheme("...-..-"), Ok("$".to_string()));
}

#[test]
fn symbol_round_trip() {
    let chars = "abcdefghijklmnopqrstuvwxyzABCDEFGHIJKLMNOPQRSTUVWXYZ0123456789.,?'!/()&:;=+-_\"$@ ";
    for c in chars.chars() {
        let token = grapheme_to_morse(&c.to_string());
        let decoded = morse_to_grapheme(&token).unwrap();
        let canon = if c.is_ascii_lowercase() {
            c.to_ascii_uppercase().to_string()
        } else {
            c.to_string()
        };
        assert_eq!(decoded, canon);
    }
}

#[test]
fn escape_round_trip() {
    let crab = word_to_morse("\u{1F980}");
    assert_eq!(morse_to_word(&crab), Ok("\u{1F980}".to_string()));
    let accent = word_to_morse("\u{e9}");
    assert_eq!(morse_to_word(&accent), Ok("\u{e9}".to_string()));
}

#[test]
fn combining_mark_is_one_cluster() {
    let m = word_to_morse("e\u{301}");
    assert_eq!(m, "-..... -..--.-. ..--..-- .------. .....-");
    assert_eq!(morse_to_word(&m), Ok("e\u{301}".to_string()));
}

#[test]
fn unknown_token_is_rejected() {
    assert_eq!(morse_to_word("...a..."), Err(MorseError::UnknownSymbol));
    assert_eq!(morse_to_word("........"), Err(MorseError::UnknownSymbol));
    assert_eq!(morse_to_word("... --- ... ------"), Err(MorseError::UnknownSymbol));
    assert_eq!(morse_to_grapheme("......."), Err(MorseError::UnknownSymbol));
    assert_eq!(morse_to_grapheme("-....."), Err(MorseError::UnknownSymbol));
    assert_eq!(morse_to_grapheme(".....-"), Err(MorseError::UnknownSymbol));
}

#[test]
fn invalid_escape_bytes_are_rejected() {
    assert_eq!(morse_to_word("-..... .------- .....-"), Err(MorseError::InvalidUtf8Escape));
}

#[test]
fn bad_byte_code_in_escape_block_is_rejected() {
    assert_eq!(morse_to_word("-..... ...- .....-"), Err(MorseError::UnknownSymbol));
}

#[test]
fn escape_block_without_end_runs_to_the_stream_end() {
    let m = "-..... ....---- .--..... .-.--..- .-------";
    assert_eq!(morse_to_word(m), Ok("\u{1F980}".to_string()));
}

#[test]
fn empty_inputs() {
    assert_eq!(word_to_morse(""), "");
    assert_eq!(morse_to_word(""), Ok(String::new()));
    assert_eq!(morse_to_word("   "), Ok(String::new()));
    assert_eq!(morse_to_word("-..... .....-"), Ok(String::new()));
}

#[test]
fn separators_are_any_whitespace() {
    assert_eq!(morse_to_word("...\t---\n..."), Ok("SOS".to_string()));
}

#[test]
fn grapheme_list_encoding() {
    let gs = vec!["S".to_string(), "O".to_string(), "S".to_string()];
    assert_eq!(encode_graphemes(&gs), "... --- ...");
    assert_eq!(encode_graphemes(&Vec::new()), "");
}

#[test]
fn token_stream_decoding() {
    assert_eq!(token_lookup(&vec!['.', '.', '.']), Some('S'));
    assert_eq!(token_lookup(&vec!['/']), Some(' '));
    assert_eq!(token_lookup(&vec!['-', '-', '-', '-', '-', '-']), None);

    let toks = vec![vec!['.', '.', '.'], vec!['-', '-', '-']];
    assert_eq!(decode_tokens_x(&toks), Ok("SO".to_string()));
    assert_eq!(decode_tokens_x(&Vec::new()), Ok(String::new()));
}

#[test]
fn phrase_encode_and_decode() {
    let words = vec!["SOS".to_string(), "sos".to_string()];
    assert_eq!(encode_phrase(&words), "... --- ... / ... --- ...");
    assert_eq!(encode_phrase(&Vec::new()), "");

    let groups = vec!["... --- ...".to_string(), ".... ..".to_string()];
    assert_eq!(decode_phrase(&groups), Ok("SOSHI".to_string()));

    let bad = vec!["... --- ...".to_string(), "--------".to_string()];
    assert_eq!(decode_phrase(&bad), Err(MorseError::UnknownSymbol));
}
