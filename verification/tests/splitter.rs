use sci_quest_decoder::error::DecodeError;
use sci_quest_decoder::picture_splitter::{split, Action, ActionArguments};

fn token(action: Action, arguments: &[u8]) -> ActionArguments {
    ActionArguments { action, arguments: arguments.to_vec() }
}

#[test]
fn it_splits() {
    let resource: Vec<u8> = vec![
        0xf0, 1,
        0xf1,
        0xff,
    ];
    let result = split(&resource).unwrap();
    let expected: Vec<ActionArguments> = vec![
        ActionArguments{
            action: Action::SetVisualColour,
            arguments: vec![1],
        },
        ActionArguments{
            action: Action::DisableVisual,
            arguments: vec![],
        },
        ActionArguments{
            action: Action::End,
            arguments: vec![],
        },
    ];
    assert_eq!(result, expected);
}

#[test]
fn splits_nothing_into_no_tokens() {
    assert_eq!(split(&[]), Ok(vec![]));
}

#[test]
fn every_opcode_byte_has_its_action() {
    let actions = [
        Action::SetVisualColour,
        Action::DisableVisual,
        Action::SetPriorityColour,
        Action::DisablePriority,
        Action::ShortRelativePatterns,
        Action::MediumRelativeLines,
        Action::LongLines,
        Action::ShortRelativeLines,
        Action::FloodFill,
        Action::SetPattern,
        Action::LongPatterns,
        Action::SetControlColour,
        Action::DisableControl,
        Action::MediumRelativePatterns,
        Action::CommandExtensions,
        Action::End,
    ];
    for (i, action) in actions.iter().enumerate() {
        assert_eq!(Action::from_byte(0xf0 + i as u8), Ok(*action));
    }
    assert_eq!(Action::from_byte(0xef), Err(DecodeError::UnrecognizedOpcode));
    assert_eq!(Action::from_byte(0), Err(DecodeError::UnrecognizedOpcode));
}

#[test]
fn fixed_length_opcodes() {
    let data: Vec<u8> = vec![0xf0, 0xff, 0xf2, 0xf3, 0xf3, 0xf9, 0xf1, 0xfb, 0x05, 0xfc, 0xf1, 0xff];
    let expected = vec![
        token(Action::SetVisualColour, &[0xff]),
        token(Action::SetPriorityColour, &[0xf3]),
        token(Action::DisablePriority, &[]),
        token(Action::SetPattern, &[0xf1]),
        token(Action::SetControlColour, &[0x05]),
        token(Action::DisableControl, &[]),
        token(Action::DisableVisual, &[]),
        token(Action::End, &[]),
    ];
    assert_eq!(split(&data), Ok(expected));
}

#[test]
fn long_lines_with_two_groups_take_six_bytes() {
    let data: Vec<u8> = vec![0xf6, 0x00, 0x10, 0x20, 0x01, 0x30, 0x40, 0xff];
    let expected = vec![
        token(Action::LongLines, &[0x00, 0x10, 0x20, 0x01, 0x30, 0x40]),
        token(Action::End, &[]),
    ];
    assert_eq!(split(&data), Ok(expected));
}

#[test]
fn high_bytes_inside_a_group_are_arguments() {
    // Only the first byte of a group can end a list; the start is never tested.
    let data: Vec<u8> = vec![0xf6, 0xf6, 0xf7, 0xf8, 0x01, 0xff, 0xf0, 0xf1];
    let expected = vec![
        token(Action::LongLines, &[0xf6, 0xf7, 0xf8, 0x01, 0xff, 0xf0]),
        token(Action::DisableVisual, &[]),
    ];
    assert_eq!(split(&data), Ok(expected));
}

#[test]
fn line_lists_step_by_their_chunk() {
    let short: Vec<u8> = vec![0xf7, 1, 2, 3, 0x11, 0x22, 0xff];
    assert_eq!(
        split(&short),
        Ok(vec![token(Action::ShortRelativeLines, &[1, 2, 3, 0x11, 0x22]), token(Action::End, &[])])
    );
    let medium: Vec<u8> = vec![0xf5, 1, 2, 3, 0x11, 0xfa, 0x22, 0xfb, 0xff];
    assert_eq!(
        split(&medium),
        Ok(vec![
            token(Action::MediumRelativeLines, &[1, 2, 3, 0x11, 0xfa, 0x22, 0xfb]),
            token(Action::End, &[]),
        ])
    );
    let bare: Vec<u8> = vec![0xf5, 1, 2, 3, 0xff];
    assert_eq!(
        split(&bare),
        Ok(vec![token(Action::MediumRelativeLines, &[1, 2, 3]), token(Action::End, &[])])
    );
}

#[test]
fn fill_may_have_no_seed() {
    let data: Vec<u8> = vec![0xf8, 0xf8, 0x00, 0x05, 0x06, 0x01, 0xf0, 0xf0, 0xff];
    let expected = vec![
        token(Action::FloodFill, &[]),
        token(Action::FloodFill, &[0x00, 0x05, 0x06, 0x01, 0xf0, 0xf0]),
        token(Action::End, &[]),
    ];
    assert_eq!(split(&data), Ok(expected));
}

#[test]
fn pattern_chunks_depend_on_the_latest_set_pattern() {
    // Without textures a long pattern is three bytes a stamp.
    let plain: Vec<u8> = vec![0xfa, 0, 1, 2, 0, 3, 4, 0xff];
    assert_eq!(
        split(&plain),
        Ok(vec![token(Action::LongPatterns, &[0, 1, 2, 0, 3, 4]), token(Action::End, &[])])
    );
    // With textures (bit 0x20) a pattern number goes in front of each.
    let textured: Vec<u8> = vec![0xf9, 0x21, 0xfa, 9, 0, 1, 2, 8, 0xf0, 3, 4, 0xff];
    assert_eq!(
        split(&textured),
        Ok(vec![
            token(Action::SetPattern, &[0x21]),
            token(Action::LongPatterns, &[9, 0, 1, 2, 8, 0xf0, 3, 4]),
            token(Action::End, &[]),
        ])
    );
    // Switched off again.
    let off: Vec<u8> = vec![0xf9, 0x21, 0xf9, 0x11, 0xfa, 0, 1, 2, 0xff];
    assert_eq!(
        split(&off),
        Ok(vec![
            token(Action::SetPattern, &[0x21]),
            token(Action::SetPattern, &[0x11]),
            token(Action::LongPatterns, &[0, 1, 2]),
            token(Action::End, &[]),
        ])
    );
}

#[test]
fn relative_patterns_start_behind_the_first_stamp() {
    let medium: Vec<u8> = vec![0xfd, 0xf0, 1, 2, 5, 6, 0xff];
    assert_eq!(
        split(&medium),
        Ok(vec![token(Action::MediumRelativePatterns, &[0xf0, 1, 2, 5, 6]), token(Action::End, &[])])
    );
    let short: Vec<u8> = vec![0xf4, 0, 1, 2, 5, 6, 0xff];
    assert_eq!(
        split(&short),
        Ok(vec![token(Action::ShortRelativePatterns, &[0, 1, 2, 5, 6]), token(Action::End, &[])])
    );
    let medium_textured: Vec<u8> = vec![0xf9, 0x20, 0xfd, 7, 0, 1, 2, 8, 5, 6, 0xff];
    assert_eq!(
        split(&medium_textured),
        Ok(vec![
            token(Action::SetPattern, &[0x20]),
            token(Action::MediumRelativePatterns, &[7, 0, 1, 2, 8, 5, 6]),
            token(Action::End, &[]),
        ])
    );
    let short_textured: Vec<u8> = vec![0xf9, 0x20, 0xf4, 7, 0, 1, 2, 8, 0xf5, 9, 0x11, 0xff];
    assert_eq!(
        split(&short_textured),
        Ok(vec![
            token(Action::SetPattern, &[0x20]),
            token(Action::ShortRelativePatterns, &[7, 0, 1, 2, 8, 0xf5, 9, 0x11]),
            token(Action::End, &[]),
        ])
    );
}

#[test]
fn extension_lengths() {
    let mut data: Vec<u8> = vec![0xfe, 0, 1, 2, 3, 4, 0xfe, 3, 0xf0, 0xfe, 4, 0xfe, 5, 9, 0xfe, 6];
    data.push(0xfe);
    data.push(8);
    data.extend(vec![0xf1; 14]);
    data.push(0xfe);
    data.push(1);
    data.extend(vec![0xff; 41]);
    data.push(0xfe);
    data.push(2);
    data.extend(vec![0x00; 41]);
    data.push(0xff);
    let tokens = split(&data).unwrap();
    let lengths: Vec<usize> = tokens.iter().map(|t| t.arguments.len()).collect();
    assert_eq!(lengths, vec![5, 2, 1, 2, 1, 15, 42, 42, 0]);
    assert!(tokens[..8].iter().all(|t| t.action == Action::CommandExtensions));
    assert_eq!(tokens[0].arguments, vec![0, 1, 2, 3, 4]);
}

#[test]
fn embedded_cel_carries_its_size() {
    // Sub-command 7: position (3), size in bytes 4 and 5, then the cel.
    let mut data: Vec<u8> = vec![0xfe, 7, 0, 0, 0, 0x03, 0x01];
    data.extend(vec![0xf0; 259]);
    data.push(0xff);
    let tokens = split(&data).unwrap();
    assert_eq!(tokens.len(), 2);
    assert_eq!(tokens[0].arguments.len(), 6 + 259);
    assert_eq!(tokens[1], token(Action::End, &[]));
}

#[test]
fn byte_below_the_opcodes_is_unrecognized() {
    assert_eq!(split(&[0x00]), Err(DecodeError::UnrecognizedOpcode));
    assert_eq!(split(&[0xf1, 0xef, 0xff]), Err(DecodeError::UnrecognizedOpcode));
    assert_eq!(split(&[0xf0, 0x01, 0x02]), Err(DecodeError::UnrecognizedOpcode));
}

#[test]
fn unknown_extension_is_rejected() {
    assert_eq!(split(&[0xfe, 9, 0xff]), Err(DecodeError::UnrecognizedExtensionSubcommand));
    assert_eq!(split(&[0xfe, 0xff]), Err(DecodeError::UnrecognizedExtensionSubcommand));
}

#[test]
fn data_that_end_inside_arguments_are_truncated() {
    assert_eq!(split(&[0xf0]), Err(DecodeError::TruncatedInput));
    assert_eq!(split(&[0xf6, 0, 1, 2]), Err(DecodeError::TruncatedInput));
    assert_eq!(split(&[0xf6, 0, 1, 2, 3, 4, 5]), Err(DecodeError::TruncatedInput));
    assert_eq!(split(&[0xf8]), Err(DecodeError::TruncatedInput));
    assert_eq!(split(&[0xfe]), Err(DecodeError::TruncatedInput));
    assert_eq!(split(&[0xfe, 1, 0, 0]), Err(DecodeError::TruncatedInput));
    assert_eq!(split(&[0xfe, 7, 0, 0, 0, 1]), Err(DecodeError::TruncatedInput));
    assert_eq!(split(&[0xfe, 7, 0, 0, 0, 1, 0]), Err(DecodeError::TruncatedInput));
    assert_eq!(split(&[0xfe, 0, 1, 2]), Err(DecodeError::TruncatedInput));
}
