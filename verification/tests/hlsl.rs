use hyprwpe::hlsl::{normalise, promote_int_uniform};

/// The four shapes that dominated the corpus, with the driver's complaint
/// for each recorded in the module docs.
#[test]
fn integer_literals_are_promoted_in_float_expressions() {
    assert_eq!(norm_local("float o4 = 3 * amt;"), "float o4 = 3.0 * amt;");
    assert_eq!(
        norm_local("vec4 p = vec4(pointer * 2 - 1, 0.0, 1.0);"),
        "vec4 p = vec4(pointer * 2.0 - 1.0, 0.0, 1.0);"
    );
    assert_eq!(
        norm_local("gl_FragColor = vec4(max(0, albedo.rgb), albedo.a);"),
        "gl_FragColor = vec4(max(0.0, albedo.rgb), albedo.a);"
    );
    assert_eq!(
        norm_local("vec2 da = mix(a, b, smoothstep(1 - g_Rough, 1, t));"),
        "vec2 da = mix(a, b, smoothstep(1.0 - g_Rough, 1.0, t));"
    );
}

/// Integer context must be left alone, or the fix causes a new error.
#[test]
fn integer_contexts_are_not_promoted() {
    // A `for` header declares an int, so every literal in it stays int.
    assert_eq!(
        norm_local("for (int i = 0; i < 10; i++) { left += x[i]; }"),
        "for (int i = 0; i < 10; i++) { left += x[i]; }"
    );
    // Array subscripts require an integer.
    assert_eq!(
        norm_local("float v = arr[0] + arr[3];"),
        "float v = arr[0] + arr[3];"
    );
    assert_eq!(norm_local("int count = 4;"), "int count = 4;");
}

#[test]
fn already_unambiguous_numbers_are_untouched() {
    assert_eq!(norm_local("float a = 1.0 + 2e5;"), "float a = 1.0 + 2e5;");
    assert_eq!(norm_local("int mask = 0x1F;"), "int mask = 0x1F;");
    // A digit inside an identifier is not a literal.
    assert_eq!(
        norm_local("vec2 v = g_Texture0Resolution.xy;"),
        "vec2 v = g_Texture0Resolution.xy;"
    );
}

#[test]
fn the_reserved_identifier_is_renamed_everywhere_it_is_used() {
    let src = "vec4 sample = texSample2D(g_Texture0, v_TexCoord);\nreturn sample.rgb;";
    let out = normalise(src);
    assert!(
        !out.contains(" sample"),
        "the declaration is renamed: {out}"
    );
    assert!(out.contains("wp_sample"));
    assert_eq!(
        out.matches("wp_sample").count(),
        2,
        "declaration and use both"
    );
    // A longer identifier containing `sample` must not be touched.
    let other = normalise("float samples = 1.0;");
    assert!(other.contains("samples"), "{other}");
}

#[test]
fn hlsl_function_names_are_mapped() {
    assert_eq!(
        norm_local("v += fmod(g_Time, M_PI / 10) * speed;"),
        "v += mod(g_Time, M_PI / 10.0) * speed;"
    );
}

/// A first definition is emitted plainly - no guard is needed for a name
/// that has not been seen.
#[test]
fn the_first_macro_definition_is_not_guarded() {
    let src = "#define FORMAT_DXT1 7\nfloat a = 1.0;\n";
    let out = normalise(src);
    assert_eq!(out.matches("#ifndef").count(), 0, "{out}");
    assert_eq!(out.matches("#define FORMAT_DXT1 7").count(), 1);
}

/// The material says the uniform is an integer, so the loop index works.
#[test]
fn a_uniform_marked_int_in_the_material_is_declared_int() {
    let src = "uniform float u_Min; // {\"material\":\"Min\",\"int\":true,\"default\":0}\n";
    let out = normalise(src);
    assert!(out.starts_with("uniform int u_Min;"), "{out}");
    // The comment is preserved: it is the binding we parse.
    assert!(out.contains("\"material\":\"Min\""), "{out}");
}

#[test]
fn a_uniform_not_marked_int_keeps_its_type() {
    let src = "uniform float g_Phase; // {\"material\":\"phase\",\"default\":1}\n";
    assert!(normalise(src).contains("uniform float g_Phase;"));
    // `"int":false` is not an integer either.
    let src = "uniform float g_X; // {\"int\":false}\n";
    assert!(normalise(src).contains("uniform float g_X;"));
}

/// A number inside a `//` comment is part of the material binding, so it
/// must not be rewritten.
#[test]
fn binding_comments_are_never_rewritten() {
    let src = "uniform float g_Scale; // {\"default\":1,\"range\":[0,16]}\n";
    let out = normalise(src);
    assert!(out.contains("\"default\":1,"), "{out}");
    assert!(out.contains("[0,16]"), "{out}");
}

#[test]
fn a_block_comment_is_left_alone() {
    let src = "/* vec4 sample = 2; */\nreturn 1.0;";
    let out = normalise(src);
    assert!(out.contains("vec4 sample = 2;"), "{out}");
}

/// The real failing statement, end to end.
#[test]
fn a_real_statement_from_the_library_now_compiles_as_glsl() {
    let src =
        "float phase = (noise.g * M_PI * 2 + v_Params.x * 10 + v_Params.y * 5) * g_Phase;";
    let out = norm_local(src);
    assert_eq!(
        out,
        "float phase = (noise.g * M_PI * 2.0 + v_Params.x * 10.0 + v_Params.y * 5.0) * g_Phase;"
    );
}

/// The loop that showed the contract problem: the uniform is `float` in the
/// shader but `"int": true` in the material.
#[test]
fn the_audio_frequency_loop_becomes_legal() {
    let src = "uniform float u_Min; // {\"int\":true}\nfor (int i = u_Min; i < u_Max; i++) {\n  left += g_AudioSpectrum64Left[i];\n}\n";
    let out = normalise(src);
    assert!(out.contains("uniform int u_Min;"), "{out}");
    assert!(out.contains("for (int i = u_Min; i < u_Max; i++)"), "{out}");
    assert!(
        out.contains("g_AudioSpectrum64Left[i]"),
        "the index is untouched"
    );
}

/// The regression that mattered: `1e-10` must survive intact, or the
/// engine's own `rgb2hsv` stops declaring `H` and `S`.
#[test]
fn scientific_notation_is_never_split() {
    assert_eq!(
        norm_local("float H = abs((Q.w - Q.y) / (6.0 * C + 1e-10) + Q.z);"),
        "float H = abs((Q.w - Q.y) / (6.0 * C + 1e-10) + Q.z);"
    );
    assert_eq!(norm_local("float a = 2e5 + 1E+3;"), "float a = 2e5 + 1E+3;");
    assert_eq!(norm_local("float b = 1.5e-3 * x;"), "float b = 1.5e-3 * x;");
}

/// Two headers define the same constants; GLSL rejects any redefinition, so
/// the repeat is guarded and the first definition stands.
#[test]
fn a_macro_defined_twice_is_guarded() {
    let src = "#define FORMAT_DXT1 7\nfloat a = 1.0;\n#define FORMAT_DXT1 7\n";
    let out = normalise(src);
    assert_eq!(out.matches("#define FORMAT_DXT1").count(), 2);
    assert_eq!(out.matches("#ifndef FORMAT_DXT1").count(), 1, "{out}");
    // The guard must come before the second definition and wrap it.
    let guard = out.find("#ifndef FORMAT_DXT1").unwrap();
    let second = out.rfind("#define FORMAT_DXT1").unwrap();
    assert!(guard < second, "{out}");
    assert!(out[second..].contains("#endif"), "{out}");
}

fn norm_local(line: &str) -> String {
    let out = normalise(line);
    out.trim_end_matches('\n').to_string()
}

/// Text that is not code for the shader compiler comes through as it is.
#[test]
fn non_ascii_text_is_kept() {
    assert_eq!(norm_local("// Größe: 3\u{2009}px"), "// Größe: 3\u{2009}px");
    assert_eq!(norm_local("float größe = 3;"), "float größe = 3.0;");
}

#[test]
fn code_without_anything_to_rewrite_is_kept() {
    let src = "vec4 albedo = texSample2D(g_Texture0, uv);\nreturn albedo.rgb;\n";
    assert_eq!(normalise(src), src);
}

#[test]
fn unsigned_declarations_are_integer_contexts() {
    assert_eq!(norm_local("uint mask = 3;"), "uint mask = 3;");
}

#[test]
fn every_line_is_rewritten_for_itself() {
    let a = "float o = 3 * amt;\n";
    let b = "float p = fmod(o, 2);\n";
    let both = format!("{a}{b}");
    assert_eq!(normalise(&both), format!("{}{}", normalise(a), normalise(b)));
}

#[test]
fn an_indented_uniform_marked_int_is_declared_int() {
    assert_eq!(
        normalise("  uniform float u_Min; // {\"int\":true}"),
        "  uniform int u_Min; // {\"int\":true}\n"
    );
    assert_eq!(
        normalise("\tuniform float u_Min; // {\"int\":false}"),
        "\tuniform float u_Min; // {\"int\":false}\n"
    );
    let code: Vec<char> = "  uniform float u_Min; ".chars().collect();
    let tail: Vec<char> = "// {\"int\":true}".chars().collect();
    let out: String = promote_int_uniform(&code, &tail).into_iter().collect();
    assert_eq!(out, "  uniform int u_Min; ");
}

#[test]
fn a_block_comment_that_is_opened_again_is_tracked() {
    let src = "/* a */ /* b\nvec4 sample = 2;\n*/";
    assert_eq!(normalise(src), "/* a */ /* b\nvec4 sample = 2;\n*/\n");
    // A line comment hides what looks like the start of a block.
    assert_eq!(
        normalise("/* a */ // /* b\nvec4 sample = 2;"),
        "/* a */ // /* b\nvec4 wp_sample = 2.0;\n"
    );
    assert_eq!(
        normalise("/* a\nb */ /*\nfloat x = 1;\n*/\nfloat x = 1;"),
        "/* a\nb */ /*\nfloat x = 1;\n*/\nfloat x = 1.0;\n"
    );
}

#[test]
fn normalising_twice_is_normalising_once() {
    for src in [
        "#define A 1\nfloat x = 3 * fmod(sample, 2); // {\"int\":true}\n",
        "  uniform float u = 1; // {\"int\":true}\n/* a */ /* b\n1\n*/ 1\n",
        "for (int i = 0; i < 10; i++) { x[1] += 1e-3 + 0x1F + 1.uint + .5; }\n",
    ] {
        let once = normalise(src);
        assert_eq!(normalise(&once), once);
    }
    // A repeat is guarded, and its guard holds a repeat.
    let once = normalise("#define A 1\n#define A 1\n");
    assert_ne!(normalise(&once), once);
}
