use hyprwpe::effect::{
    assemble, combo_defines, expand_includes, parse_material, stage_of, uniform_bindings,
    IncludeError, JsonError, Stage, PRELUDE,
};
use hyprwpe::json::parse_json;

    
    #[test]
    fn uniform_bindings_read_the_comment_contract() {
        let src = r#"
uniform sampler2D g_Texture0; // {"material":"ui_editor_properties_framebuffer","hidden":true}
uniform float g_Strength; // {"material":"ui_editor_properties_ripple_strength","default":0.1,"range":[0,1]}
uniform vec3 g_SpecularColor; // {"material":"ui_editor_properties_ripple_specular_color","default":"1 1 1","type":"color"}
uniform mat4 g_ModelViewProjectionMatrix;
"#;
        let b = uniform_bindings(src);
        assert_eq!(b.len(), 4);
        assert_eq!(b[0].name, "g_Texture0");
        assert_eq!(b[0].ty, "sampler2D");
        assert!(b[0].hidden);
        assert_eq!(
            b[1].material.as_deref(),
            Some("ui_editor_properties_ripple_strength")
        );
        assert_eq!(b[1].default, parse_json("0.1"));
        assert_eq!(b[2].ty, "vec3");
        assert_eq!(
            b[2].material.as_deref(),
            Some("ui_editor_properties_ripple_specular_color")
        );
        // A built-in uniform has no material binding and is not hidden.
        assert_eq!(b[3].material, None);
        assert!(!b[3].hidden);
    }

    #[test]
    fn a_combo_uniform_is_detected() {
        let src = r#"uniform int g_Specular; // {"combo":"SPECULAR","type":"options","default":0}"#;
        let b = uniform_bindings(src);
        assert_eq!(b[0].combo.as_deref(), Some("SPECULAR"));
    }

    #[test]
    fn includes_expand_recursively_and_once() {
        let files = |n: &str| -> Option<String> {
            match n {
                "common.h" => Some("float helper() { return 1.0; }\n#include \"inner.h\"\n".into()),
                "inner.h" => Some("float inner() { return 2.0; }\n".into()),
                _ => None,
            }
        };
        let src = "#include \"common.h\"\nvoid main() {}\n#include \"common.h\"\n";
        let out = expand_includes(src, &files).unwrap();
        assert_eq!(out.matches("float helper()").count(), 1, "included once");
        assert_eq!(out.matches("float inner()").count(), 1);
        assert!(out.contains("void main"));
    }

    #[test]
    fn a_missing_include_is_an_error_not_a_silent_drop() {
        let none = |_: &str| None;
        assert_eq!(
        expand_includes("#include \"common.h\"\n", &none),
        Err(IncludeError::Missing("common.h".to_string()))
    );
    }

    #[test]
    fn an_include_cycle_terminates() {
        let files = |n: &str| -> Option<String> {
            match n {
                "a.h" => Some("#include \"b.h\"\n".into()),
                "b.h" => Some("#include \"a.h\"\n".into()),
                _ => None,
            }
        };
        // Each file is included once, so the cycle stops rather than recursing.
        assert!(expand_includes("#include \"a.h\"\n", &files).is_ok());
    }

    #[test]
    fn assembled_source_carries_the_prelude_and_version() {
        let out = assemble(
            "void main() {}",
            Stage::Fragment,
            &["COMBO_X 1".to_string()],
        );
        assert!(out.starts_with("#version 300 es"));
        assert!(out.contains("texSample2D"));
        assert!(out.contains("#define COMBO_X 1"));
        assert!(out.contains("gl_FragColor"));
        assert!(out.contains("void main()"));
    }

    #[test]
    fn a_shader_with_its_own_version_keeps_it_first() {
        let src = "#version 300 es\nvoid main() {}";
        let out = assemble(src, Stage::Fragment, &[]);
        // Exactly one #version, and it is the first line.
        assert_eq!(out.matches("#version").count(), 1);
        assert!(out.trim_start().starts_with("#version 300 es"));
    }

    /// The GPU found this: a helper `common.h` defines must not be repeated in
    /// the prelude, or the driver reports "function is already defined".
    #[test]
    fn the_prelude_does_not_redefine_the_engines_own_helpers() {
        for name in ["hsv2rgb", "rgb2hsv", "rotateVec2", "greyscale"] {
            assert!(
                !PRELUDE.contains(name),
                "{name} is defined by the engine's common.h; repeating it fails to compile"
            );
        }
        // ...while the HLSL names the engine injects and no include provides
        // must be present.
        for name in ["frac", "saturate", "lerp", "mul", "texSample2D"] {
            assert!(PRELUDE.contains(name), "{name} must come from the host");
        }
    }

    /// GLSL ES rejects `#if` over an undefined name where HLSL read it as 0.
    #[test]
    fn combo_macros_are_defined_for_the_shaders_if_blocks() {
        let src = "uniform int g_Specular; // {\"combo\":\"SPECULAR\"}\n#if NORMALMAP\n#endif\n";
        let defs = combo_defines(src);
        assert!(defs.iter().any(|d| d.contains("SPECULAR")), "{defs:?}");
        assert!(defs.iter().any(|d| d.contains("NORMALMAP")), "{defs:?}");
        // Each is guarded so a shader that defines its own still wins.
        assert!(defs.iter().all(|d| d.starts_with("#ifndef ")), "{defs:?}");
        assert!(defs.iter().all(|d| d.ends_with("#endif")));
    }

    /// A shader's `#include`d helper may use `g_Texture0` before the shader
    /// declares it, which GLSL rejects - so the host declares the set first and
    /// the shader's own duplicate is removed.
    #[test]
    fn sampler_uniforms_are_injected_before_the_body_and_not_duplicated() {
        let src =
            "uniform sampler2D g_Texture0; // {\"material\":\"framebuffer\"}\nvoid main() {}\n";
        let out = assemble(src, Stage::Fragment, &[]);
        let declarations = out.matches("uniform sampler2D g_Texture0;").count();
        assert_eq!(declarations, 1, "declared exactly once:\n{out}");
        // The injected block comes before the body, so an include can use it.
        let decl_at = out.find("uniform sampler2D g_Texture0;").unwrap();
        let main_at = out.find("void main()").unwrap();
        assert!(decl_at < main_at, "the sampler must precede its use");
        // Every resolution uniform the shaders read is present too.
        assert!(out.contains("uniform vec4 g_Texture0Resolution;"));
    }

    #[test]
    fn a_vertex_stage_gets_the_samplers_as_well() {
        let out = assemble("void main() {}", Stage::Vertex, &[]);
        assert!(out.contains("uniform sampler2D g_Texture0;"));
        assert!(out.contains("uniform vec4 g_Texture1Resolution;"));
    }

    /// `CASTn` must broadcast, because the corpus calls it on a bare integer.
    #[test]
    fn cast_helpers_accept_integers_and_floats_and_vectors() {
        // The corpus calls these on bare integers (`CAST2(3)`), on floats and on
        // vectors, and GLSL resolves overloads by exact type - so all three must
        // exist or the call is a hard error.
        for decl in [
            "vec2 CAST2(int v)",
            "vec2 CAST2(float v)",
            "vec2 CAST2(vec2 v)",
            "vec3 CAST3(int v)",
            "vec3 CAST3(float v)",
            "vec4 CAST4(int v)",
            "vec4 CAST4(float v)",
            "vec4 CAST4(vec3 v)",
            "vec4 CAST4(vec4 v)",
        ] {
            assert!(PRELUDE.contains(decl), "missing overload: {decl}");
        }
    }

    #[test]
    fn the_assembled_header_is_the_only_version_and_has_one_output() {
        let out = assemble("#version 300 es\nvoid main() {}", Stage::Fragment, &[]);
        assert_eq!(out.matches("#version").count(), 1);
        assert!(out.trim_start().starts_with("#version 300 es"));
        assert_eq!(out.matches("out vec4 wp_FragColor;").count(), 1);
        assert!(out.contains("#define gl_FragColor wp_FragColor"));
    }

    #[test]
    fn material_passes_parse_with_textures_and_constants() {
        let m = r#"{"passes":[{
            "shader":"effects/waterripple","blending":"normal",
            "depthtest":"disabled","depthwrite":"disabled","cullmode":"nocull",
            "textures":[null,"effects/waterripplenormal"],
            "constantshadervalues":{"ui_editor_properties_ripple_scale":1.35}
        }]}"#;
        let p = parse_material(m).unwrap();
        assert_eq!(p.len(), 1);
        assert_eq!(p[0].shader, "effects/waterripple");
        assert!(!p[0].depth_test);
        assert!(!p[0].cull);
        assert_eq!(
            p[0].textures,
            vec![None, Some("effects/waterripplenormal".into())]
        );
        assert!(p[0]
            .constants
            .contains_key("ui_editor_properties_ripple_scale"));
    }

    #[test]
    fn defaults_when_the_material_is_sparse() {
        let p = parse_material(r#"{"passes":[{"shader":"x"}]}"#).unwrap();
        assert_eq!(p[0].blending, "normal");
        assert!(p[0].depth_test);
        assert!(p[0].cull);
        assert!(p[0].textures.is_empty());
    }

#[test]
fn files_that_name_each_other_too_deep_are_an_error() {
    // Every file names the next one, without end.
    let files = |n: &str| -> Option<String> {
        let depth: u32 = n.parse().ok()?;
        Some(format!("#include \"{}\"\n", depth + 1))
    };
    assert_eq!(
        expand_includes("#include \"0\"\n", &files),
        Err(IncludeError::TooDeep)
    );
}

#[test]
fn lines_that_bring_nothing_in_are_kept() {
    let none = |_: &str| None;
    let src = "float a = 1.0;\nvoid main() {}\n";
    assert_eq!(expand_includes(src, &none), Ok(src.to_string()));
}

#[test]
fn a_comment_is_read_behind_the_declaration() {
    let src = "uniform float g_A; // {\"material\":\"a\"}\nuniform float g_B;\n";
    let b = uniform_bindings(src);
    assert_eq!(b.len(), 2);
    assert_eq!(b[0].material.as_deref(), Some("a"));
    assert_eq!(b[1].material, None);
}

#[test]
fn the_stage_is_read_from_the_path() {
    assert_eq!(stage_of("shaders/effects/ripple.vert"), Stage::Vertex);
    assert_eq!(stage_of("shaders/effects/ripple.frag"), Stage::Fragment);
}

#[test]
fn a_material_that_is_no_json_is_an_error() {
    assert!(matches!(parse_material("{"), Err(JsonError::NotJson)));
}

#[test]
fn only_what_the_header_declares_is_dropped() {
    let src = "uniform sampler2D g_Texture9;\nvoid main() {}";
    let out = assemble(src, Stage::Fragment, &[]);
    assert_eq!(out.matches("uniform sampler2D g_Texture9;").count(), 1);
    let src = "uniform sampler2D g_Texture7; // {}\nuniform vec4 g_Texture7Resolution;\n\
               uniform sampler2D g_Texture0;// {}\nuniform sampler2D g_Texture0Mask;";
    let out = assemble(src, Stage::Fragment, &[]);
    assert_eq!(out.matches("uniform sampler2D g_Texture7;").count(), 1);
    assert_eq!(out.matches("uniform vec4 g_Texture7Resolution;").count(), 1);
    assert_eq!(out.matches("uniform sampler2D g_Texture0;").count(), 1);
    assert_eq!(out.matches("uniform sampler2D g_Texture0Mask;").count(), 1);
}

#[test]
fn marks_and_returns_do_not_matter() {
    let src = "#version 120\nuniform float a; // {\"combo\":\"A\"}\n#if B\n#endif\nvoid main() {}\n";
    let written = format!("\u{feff}{}", src.replace('\n', "\r\n"));
    assert_eq!(
        assemble(&written, Stage::Vertex, &[]),
        assemble(src, Stage::Vertex, &[])
    );
}
