# ludtwig

Verified checks for Twig templates with HTML in them:

- opening and closing HTML tags that stand apart must match each other under the same Twig
  conditions and be properly nested (`html_fragments`, `nesting`),
- two elements that can be rendered together must not have the same id (`html_duplicate_id`),
- code that is annotated as deprecated must not run when the feature flag that replaces it is
  enabled (`twig_deprecated_feature_guard`).

The checks work on a syntax tree (`tree`, `nodes`, `walks`) that is read from a green tree of the
`rowan` crate (`green`). `branches` says which condition a body of a Twig `if` belongs to, `ignore`
which elements an ignore directive covers, `rule` what a rule reports, and `text` and `kind` hold
what the checks need of strings and of the kinds of syntax elements.

The contract of each function states its result over the model of the tree. The public proof
functions state what the results mean for a template that is rendered. The three functions in
`green` that call `rowan` are believed, not proved; their comments say what is claimed of them.
