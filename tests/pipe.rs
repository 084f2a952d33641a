use boxes::pipe::{pipe, PipeMaker};

#[test]
fn composed_functions_apply_in_order() {
    let append_exclamation = |word: &str| -> String {
        let mut new_word = String::from(word);
        new_word.push('!');
        new_word
    };
    let num = |word: String| -> usize { word.len() };
    let add_one = |num: usize| -> usize { num + 1 };

    let composed = pipe().to(append_exclamation).to(num).to(add_one);
    assert_eq!(composed.call("Hi"), 4);
}

#[test]
fn single_function_pipe() {
    let double = PipeMaker::new().to(|x: u32| x * 2);
    assert_eq!(double.call(21), 42);
}
