use exspec_lang::lang_python::observe::{extract_django_routes, extract_routes, normalize_django_path, normalize_re_path};

#[test]
    fn fa_rt_01_basic_app_get_route() {
        // Given: source with `@app.get("/users") def read_users(): ...`
        let source = r#"
from fastapi import FastAPI
app = FastAPI()

@app.get("/users")
def read_users():
    return []
"#;

        // When: extract_routes(source, "main.py")
        let routes = extract_routes(source, "main.py");

        // Then: [Route { method: "GET", path: "/users", handler: "read_users" }]
        assert_eq!(routes.len(), 1, "expected 1 route, got {:?}", routes);
        assert_eq!(routes[0].http_method, "GET");
        assert_eq!(routes[0].path, "/users");
        assert_eq!(routes[0].handler_name, "read_users");
    }

#[test]
    fn fa_rt_02_multiple_http_methods() {
        // Given: source with @app.get, @app.post, @app.put, @app.delete on separate functions
        let source = r#"
from fastapi import FastAPI
app = FastAPI()

@app.get("/items")
def list_items():
    return []

@app.post("/items")
def create_item():
    return {}

@app.put("/items/{item_id}")
def update_item(item_id: int):
    return {}

@app.delete("/items/{item_id}")
def delete_item(item_id: int):
    return {}
"#;

        // When: extract_routes(source, "main.py")
        let routes = extract_routes(source, "main.py");

        // Then: 4 routes with correct methods
        assert_eq!(routes.len(), 4, "expected 4 routes, got {:?}", routes);
        let methods: Vec<&str> = routes.iter().map(|r| r.http_method.as_str()).collect();
        assert!(methods.contains(&"GET"), "missing GET");
        assert!(methods.contains(&"POST"), "missing POST");
        assert!(methods.contains(&"PUT"), "missing PUT");
        assert!(methods.contains(&"DELETE"), "missing DELETE");
    }

#[test]
    fn fa_rt_03_path_parameter() {
        // Given: `@app.get("/items/{item_id}")`
        let source = r#"
from fastapi import FastAPI
app = FastAPI()

@app.get("/items/{item_id}")
def read_item(item_id: int):
    return {}
"#;

        // When: extract_routes(source, "main.py")
        let routes = extract_routes(source, "main.py");

        // Then: path = "/items/{item_id}"
        assert_eq!(routes.len(), 1, "expected 1 route, got {:?}", routes);
        assert_eq!(routes[0].path, "/items/{item_id}");
    }

#[test]
    fn fa_rt_04_router_get_with_prefix() {
        // Given: `router = APIRouter(prefix="/items")` + `@router.get("/{item_id}")`
        let source = r#"
from fastapi import APIRouter

router = APIRouter(prefix="/items")

@router.get("/{item_id}")
def read_item(item_id: int):
    return {}
"#;

        // When: extract_routes(source, "routes.py")
        let routes = extract_routes(source, "routes.py");

        // Then: path = "/items/{item_id}"
        assert_eq!(routes.len(), 1, "expected 1 route, got {:?}", routes);
        assert_eq!(
            routes[0].path, "/items/{item_id}",
            "expected prefix-resolved path"
        );
    }

#[test]
    fn fa_rt_05_router_get_without_prefix() {
        // Given: `router = APIRouter()` + `@router.get("/health")`
        let source = r#"
from fastapi import APIRouter

router = APIRouter()

@router.get("/health")
def health_check():
    return {"status": "ok"}
"#;

        // When: extract_routes(source, "routes.py")
        let routes = extract_routes(source, "routes.py");

        // Then: path = "/health"
        assert_eq!(routes.len(), 1, "expected 1 route, got {:?}", routes);
        assert_eq!(routes[0].path, "/health");
    }

#[test]
    fn fa_rt_06_non_route_decorator_ignored() {
        // Given: `@pytest.fixture` or `@staticmethod` decorated function
        let source = r#"
import pytest

@pytest.fixture
def client():
    return None

class MyClass:
    @staticmethod
    def helper():
        pass
"#;

        // When: extract_routes(source, "main.py")
        let routes = extract_routes(source, "main.py");

        // Then: empty Vec
        assert!(
            routes.is_empty(),
            "expected no routes for non-route decorators, got {:?}",
            routes
        );
    }

#[test]
    fn fa_rt_07_dynamic_path_non_literal() {
        // Given: `@app.get(some_variable)`
        let source = r#"
from fastapi import FastAPI
app = FastAPI()

ROUTE_PATH = "/dynamic"

@app.get(ROUTE_PATH)
def dynamic_route():
    return {}
"#;

        // When: extract_routes(source, "main.py")
        let routes = extract_routes(source, "main.py");

        // Then: path = "<dynamic>"
        assert_eq!(
            routes.len(),
            1,
            "expected 1 route for dynamic path, got {:?}",
            routes
        );
        assert_eq!(
            routes[0].path, "<dynamic>",
            "expected <dynamic> for non-literal path argument"
        );
    }

#[test]
    fn fa_rt_08_empty_source() {
        // Given: ""
        let source = "";

        // When: extract_routes(source, "main.py")
        let routes = extract_routes(source, "main.py");

        // Then: empty Vec
        assert!(routes.is_empty(), "expected empty Vec for empty source");
    }

#[test]
    fn fa_rt_09_async_def_handler() {
        // Given: `@app.get("/") async def root(): ...`
        let source = r#"
from fastapi import FastAPI
app = FastAPI()

@app.get("/")
async def root():
    return {"message": "hello"}
"#;

        // When: extract_routes(source, "main.py")
        let routes = extract_routes(source, "main.py");

        // Then: handler = "root" (async は無視)
        assert_eq!(routes.len(), 1, "expected 1 route, got {:?}", routes);
        assert_eq!(
            routes[0].handler_name, "root",
            "async def should produce handler_name = 'root'"
        );
    }

#[test]
    fn fa_rt_10_multiple_decorators_on_same_function() {
        // Given: `@app.get("/") @require_auth def root(): ...`
        let source = r#"
from fastapi import FastAPI
app = FastAPI()

def require_auth(func):
    return func

@app.get("/")
@require_auth
def root():
    return {}
"#;

        // When: extract_routes(source, "main.py")
        let routes = extract_routes(source, "main.py");

        // Then: 1 route (non-route decorators ignored)
        assert_eq!(
            routes.len(),
            1,
            "expected exactly 1 route (non-route decorators ignored), got {:?}",
            routes
        );
        assert_eq!(routes[0].http_method, "GET");
        assert_eq!(routes[0].path, "/");
        assert_eq!(routes[0].handler_name, "root");
    }

#[test]
    fn dj_np_01_typed_parameter() {
        // Given: a Django path with a typed parameter "users/<int:pk>/"
        // When: normalize_django_path is called
        // Then: returns "users/:pk/"
        let result = normalize_django_path("users/<int:pk>/");
        assert_eq!(result, "users/:pk/");
    }

#[test]
    fn dj_np_02_untyped_parameter() {
        // Given: a Django path with an untyped parameter "users/<pk>/"
        // When: normalize_django_path is called
        // Then: returns "users/:pk/"
        let result = normalize_django_path("users/<pk>/");
        assert_eq!(result, "users/:pk/");
    }

#[test]
    fn dj_np_03_multiple_parameters() {
        // Given: a Django path with multiple parameters
        // When: normalize_django_path is called
        // Then: returns "posts/:slug/comments/:id/"
        let result = normalize_django_path("posts/<slug:slug>/comments/<int:id>/");
        assert_eq!(result, "posts/:slug/comments/:id/");
    }

#[test]
    fn dj_np_04_no_parameters() {
        // Given: a Django path with no parameters "users/"
        // When: normalize_django_path is called
        // Then: returns "users/" unchanged
        let result = normalize_django_path("users/");
        assert_eq!(result, "users/");
    }

#[test]
    fn dj_nr_01_single_named_group() {
        // Given: a re_path pattern with one named group
        // When: normalize_re_path is called
        // Then: returns "articles/:year/"
        let result = normalize_re_path("^articles/(?P<year>[0-9]{4})/$");
        assert_eq!(result, "articles/:year/");
    }

#[test]
    fn dj_nr_02_multiple_named_groups() {
        // Given: a re_path pattern with multiple named groups
        // When: normalize_re_path is called
        // Then: returns ":year/:month/"
        let result = normalize_re_path("^(?P<year>[0-9]{4})/(?P<month>[0-9]{2})/$");
        assert_eq!(result, ":year/:month/");
    }

#[test]
    fn dj_nr_03_no_named_groups() {
        // Given: a re_path pattern with no named groups
        // When: normalize_re_path is called
        // Then: anchor stripped → "users/"
        let result = normalize_re_path("^users/$");
        assert_eq!(result, "users/");
    }

#[test]
    fn dj_nr_04_character_class_caret_preserved() {
        // Given: a re_path pattern with ^ inside a character class [^/]+
        // When: normalize_re_path is called
        // Then: the ^ inside [] is NOT treated as an anchor: "items/[^/]+/"
        let result = normalize_re_path("^items/[^/]+/$");
        assert_eq!(result, "items/[^/]+/");
    }

#[test]
    fn dj_rt_01_basic_path_attribute_handler() {
        // Given: urlpatterns with path("users/", views.user_list)
        let source = r#"
from django.urls import path
from . import views

urlpatterns = [
    path("users/", views.user_list),
]
"#;
        // When: extract_django_routes is called
        let routes = extract_django_routes(source, "urls.py");

        // Then: 1 route, method="ANY", path="users/", handler="user_list"
        assert_eq!(routes.len(), 1, "expected 1 route, got {:?}", routes);
        assert_eq!(routes[0].http_method, "ANY");
        assert_eq!(routes[0].path, "users/");
        assert_eq!(routes[0].handler_name, "user_list");
    }

#[test]
    fn dj_rt_02_path_direct_import_handler() {
        // Given: urlpatterns with path("users/", user_list) — direct function import
        let source = r#"
from django.urls import path
from .views import user_list

urlpatterns = [
    path("users/", user_list),
]
"#;
        // When: extract_django_routes is called
        let routes = extract_django_routes(source, "urls.py");

        // Then: 1 route, method="ANY", path="users/", handler="user_list"
        assert_eq!(routes.len(), 1, "expected 1 route, got {:?}", routes);
        assert_eq!(routes[0].http_method, "ANY");
        assert_eq!(routes[0].path, "users/");
        assert_eq!(routes[0].handler_name, "user_list");
    }

#[test]
    fn dj_rt_03_path_typed_parameter() {
        // Given: path("users/<int:pk>/", views.user_detail)
        let source = r#"
from django.urls import path
from . import views

urlpatterns = [
    path("users/<int:pk>/", views.user_detail),
]
"#;
        // When: extract_django_routes is called
        let routes = extract_django_routes(source, "urls.py");

        // Then: path = "users/:pk/"
        assert_eq!(routes.len(), 1, "expected 1 route, got {:?}", routes);
        assert_eq!(routes[0].path, "users/:pk/");
    }

#[test]
    fn dj_rt_04_path_untyped_parameter() {
        // Given: path("users/<pk>/", views.user_detail)
        let source = r#"
from django.urls import path
from . import views

urlpatterns = [
    path("users/<pk>/", views.user_detail),
]
"#;
        // When: extract_django_routes is called
        let routes = extract_django_routes(source, "urls.py");

        // Then: path = "users/:pk/"
        assert_eq!(routes.len(), 1, "expected 1 route, got {:?}", routes);
        assert_eq!(routes[0].path, "users/:pk/");
    }

#[test]
    fn dj_rt_05_re_path_named_group() {
        // Given: re_path("^articles/(?P<year>[0-9]{4})/$", views.year_archive)
        let source = r#"
from django.urls import re_path
from . import views

urlpatterns = [
    re_path(r"^articles/(?P<year>[0-9]{4})/$", views.year_archive),
]
"#;
        // When: extract_django_routes is called
        let routes = extract_django_routes(source, "urls.py");

        // Then: path = "articles/:year/"
        assert_eq!(routes.len(), 1, "expected 1 route, got {:?}", routes);
        assert_eq!(routes[0].path, "articles/:year/");
    }

#[test]
    fn dj_rt_06_multiple_routes() {
        // Given: 3 path() entries in urlpatterns
        let source = r#"
from django.urls import path
from . import views

urlpatterns = [
    path("users/", views.user_list),
    path("users/<int:pk>/", views.user_detail),
    path("about/", views.about),
]
"#;
        // When: extract_django_routes is called
        let routes = extract_django_routes(source, "urls.py");

        // Then: 3 routes, all method "ANY"
        assert_eq!(routes.len(), 3, "expected 3 routes, got {:?}", routes);
        for r in &routes {
            assert_eq!(r.http_method, "ANY", "expected method ANY for {:?}", r);
        }
    }

#[test]
    fn dj_rt_07_path_with_name_kwarg() {
        // Given: path("login/", views.login_view, name="login")
        let source = r#"
from django.urls import path
from . import views

urlpatterns = [
    path("login/", views.login_view, name="login"),
]
"#;
        // When: extract_django_routes is called
        let routes = extract_django_routes(source, "urls.py");

        // Then: 1 route, handler = "login_view" (name kwarg ignored)
        assert_eq!(routes.len(), 1, "expected 1 route, got {:?}", routes);
        assert_eq!(routes[0].handler_name, "login_view");
    }

#[test]
    fn dj_rt_08_empty_source() {
        // Given: ""
        // When: extract_django_routes is called
        let routes = extract_django_routes("", "urls.py");

        // Then: empty Vec
        assert!(routes.is_empty(), "expected empty Vec for empty source");
    }

#[test]
    fn dj_rt_09_no_path_calls() {
        // Given: source with no path() or re_path() calls
        let source = r#"
from django.db import models

class User(models.Model):
    name = models.CharField(max_length=100)
"#;
        // When: extract_django_routes is called
        let routes = extract_django_routes(source, "models.py");

        // Then: empty Vec
        assert!(
            routes.is_empty(),
            "expected empty Vec for non-URL source, got {:?}",
            routes
        );
    }

#[test]
    fn dj_rt_10_deduplication() {
        // Given: two identical path() entries
        let source = r#"
from django.urls import path
from . import views

urlpatterns = [
    path("users/", views.user_list),
    path("users/", views.user_list),
]
"#;
        // When: extract_django_routes is called
        let routes = extract_django_routes(source, "urls.py");

        // Then: 1 route (deduplicated)
        assert_eq!(
            routes.len(),
            1,
            "expected 1 route after dedup, got {:?}",
            routes
        );
    }

#[test]
    fn dj_rt_11_include_is_ignored() {
        // Given: urlpatterns with include() only
        let source = r#"
from django.urls import path, include

urlpatterns = [
    path("api/", include("myapp.urls")),
]
"#;
        // When: extract_django_routes is called
        let routes = extract_django_routes(source, "urls.py");

        // Then: empty Vec (include() is not a handler)
        assert!(
            routes.is_empty(),
            "expected empty Vec for include()-only urlpatterns, got {:?}",
            routes
        );
    }

#[test]
    fn dj_rt_12_multiple_path_parameters() {
        // Given: path("posts/<slug:slug>/comments/<int:id>/", views.comment_detail)
        let source = r#"
from django.urls import path
from . import views

urlpatterns = [
    path("posts/<slug:slug>/comments/<int:id>/", views.comment_detail),
]
"#;
        // When: extract_django_routes is called
        let routes = extract_django_routes(source, "urls.py");

        // Then: path = "posts/:slug/comments/:id/"
        assert_eq!(routes.len(), 1, "expected 1 route, got {:?}", routes);
        assert_eq!(routes[0].path, "posts/:slug/comments/:id/");
    }

#[test]
    fn dj_rt_13_re_path_multiple_named_groups() {
        // Given: re_path("^(?P<year>[0-9]{4})/(?P<month>[0-9]{2})/$", views.archive)
        let source = r#"
from django.urls import re_path
from . import views

urlpatterns = [
    re_path(r"^(?P<year>[0-9]{4})/(?P<month>[0-9]{2})/$", views.archive),
]
"#;
        // When: extract_django_routes is called
        let routes = extract_django_routes(source, "urls.py");

        // Then: path = ":year/:month/"
        assert_eq!(routes.len(), 1, "expected 1 route, got {:?}", routes);
        assert_eq!(routes[0].path, ":year/:month/");
    }

#[test]
fn router_prefix_last_assignment_wins() {
    let source = "from fastapi import APIRouter\nrouter = APIRouter(prefix=\"/old\")\nrouter = APIRouter(prefix=\"/v2\")\n\n@router.post(\"/items\")\ndef create():\n    pass\n";
    let routes = extract_routes(source, "api.py");
    assert_eq!(routes.len(), 1);
    assert_eq!(routes[0].http_method, "POST");
    assert_eq!(routes[0].path, "/v2/items");
    assert_eq!(routes[0].handler_name, "create");
    assert_eq!(routes[0].file, "api.py");
}

#[test]
fn router_without_prefix_keeps_earlier_prefix() {
    let source = "router = APIRouter(prefix=\"/a\")\nrouter = APIRouter()\n\n@router.get(\"/b\")\ndef h():\n    pass\n";
    let routes = extract_routes(source, "api.py");
    assert_eq!(routes.len(), 1);
    assert_eq!(routes[0].path, "/a/b");
}

#[test]
fn unknown_method_and_duplicates_are_dropped() {
    let source = "@app.websocket(\"/ws\")\ndef ws():\n    pass\n\n@app.get(\"/x\")\ndef h():\n    pass\n\n@app.get(\"/x\")\ndef h():\n    pass\n\n@app.options('/x')\ndef o():\n    pass\n";
    let routes = extract_routes(source, "m.py");
    assert_eq!(routes.len(), 2);
    assert_eq!(routes[0].http_method, "GET");
    assert_eq!(routes[1].http_method, "OPTIONS");
    assert_eq!(routes[1].path, "/x");
}

#[test]
fn route_without_arguments_is_dynamic() {
    let source = "@app.head()\ndef h():\n    pass\n";
    let routes = extract_routes(source, "m.py");
    assert_eq!(routes.len(), 1);
    assert_eq!(routes[0].http_method, "HEAD");
    assert_eq!(routes[0].path, "<dynamic>");
}

#[test]
fn routes_compare_by_all_fields() {
    let a = extract_routes("@app.get('/a')\ndef f():\n    pass\n", "m.py");
    let b = extract_routes("@app.get('/a')\ndef f():\n    pass\n", "m.py");
    let c = extract_routes("@app.get('/a')\ndef f():\n    pass\n", "n.py");
    assert!(a[0] == b[0]);
    assert!(a[0] != c[0]);
}

#[test]
fn re_path_only_outer_anchors_stripped() {
    assert_eq!(normalize_re_path("^^a$$"), "^a$");
    assert_eq!(normalize_re_path("plain"), "plain");
    assert_eq!(normalize_django_path("<a>/<b:c>/<d:e:f>"), ":a/:c/<d:e:f>");
}

#[test]
fn django_view_call_handler_not_a_route() {
    let source = "urlpatterns = [\n    path(\"a/\", views.A.as_view()),\n    re_path(r'^b/(?P<id>\\d+)$', views.b, name='b'),\n]\n";
    let routes = extract_django_routes(source, "urls.py");
    assert_eq!(routes.len(), 1);
    assert_eq!(routes[0].path, "b/:id");
    assert_eq!(routes[0].handler_name, "b");
    assert_eq!(routes[0].http_method, "ANY");
}
